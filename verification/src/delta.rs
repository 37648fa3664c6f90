//! The payload that brings a peer up to date, and its truncation to an mtu.
use crate::serialize::{
    add_lens, decode_member_id, decode_str, decode_u64, decode_u8, encode_member_id, encode_str,
    encode_u64, law_member_id_is_written_back, law_member_id_round_trip, law_str_is_written_back,
    law_str_round_trip, law_u64_is_written_back, law_u64_round_trip, law_u8_round_trip, saturated,
    sendable_member_id, sendable_str, Decoded, Deserializable, DeserializeError, Serializable,
};
use crate::text::{byte_string_chars, byte_string_from};
use crate::types::{same_member, MemberId, MemberIdView, Version};
use bytestring::ByteString;
use vstd::prelude::*;

verus! {

/// A single key-value carried by a delta. Keys are immutable, so a value is just
/// `(key, value, version)` — no deletion status.
#[derive(Debug, PartialEq, Eq)]
pub struct KeyValueDelta {
    pub key: ByteString,
    pub value: ByteString,
    pub version: Version,
}

/// What a [`KeyValueDelta`] stands for.
#[verifier::ext_equal]
pub struct KeyValueView {
    pub key: Seq<char>,
    pub value: Seq<char>,
    pub version: Version,
}

impl View for KeyValueDelta {
    type V = KeyValueView;

    open spec fn view(&self) -> KeyValueView {
        KeyValueView {
            key: byte_string_chars(self.key),
            value: byte_string_chars(self.value),
            version: self.version,
        }
    }
}

/// What a delta holds for one member.
#[derive(Debug, PartialEq, Eq)]
pub struct MemberDelta {
    pub member_id: MemberId,
    /// All key-values with `version > from_version_excluded` (up to the max version
    /// present here) are included. Because key-values are immutable and densely
    /// versioned, this is always a contiguous prefix continuation.
    pub from_version_excluded: Version,
    pub key_values: Vec<KeyValueDelta>,
}

/// What a [`MemberDelta`] stands for.
#[verifier::ext_equal]
pub struct MemberDeltaView {
    pub member_id: MemberIdView,
    pub from_version_excluded: Version,
    pub key_values: Seq<KeyValueView>,
}

impl MemberDeltaView {
    /// The maximum version carried for this member (0 if no key-values).
    pub open spec fn max_version(self) -> Version {
        if self.key_values.len() == 0 {
            0
        } else {
            self.key_values.last().version
        }
    }

    /// The version up to which this member delta leads: the last one carried, or the one that
    /// it continues from if it carries none.
    pub open spec fn reached_version(self) -> Version {
        if self.key_values.len() == 0 {
            self.from_version_excluded
        } else {
            self.key_values.last().version
        }
    }

    /// The same member delta with one more key-value.
    pub open spec fn push(self, kv: KeyValueView) -> MemberDeltaView {
        MemberDeltaView { key_values: self.key_values.push(kv), ..self }
    }
}

/// What a sequence of key-values stands for.
pub open spec fn key_value_views(key_values: Seq<KeyValueDelta>) -> Seq<KeyValueView> {
    key_values.map_values(|kv: KeyValueDelta| kv@)
}

/// What a sequence of member deltas stands for.
pub open spec fn member_delta_views(member_deltas: Seq<MemberDelta>) -> Seq<MemberDeltaView> {
    member_deltas.map_values(|member_delta: MemberDelta| member_delta@)
}

impl View for MemberDelta {
    type V = MemberDeltaView;

    open spec fn view(&self) -> MemberDeltaView {
        MemberDeltaView {
            member_id: self.member_id@,
            from_version_excluded: self.from_version_excluded,
            key_values: key_value_views(self.key_values@),
        }
    }
}

/// A delta is the payload sent to bring a peer up to date.
///
/// On the wire it is a flat stream of tagged ops — a member header ([`TAG_MEMBER`])
/// followed by its key-values ([`TAG_KEY_VALUE`]), repeated. The per-op tagging is what
/// lets [`DeltaSerializer`] truncate a delta to an mtu mid-member (sending a member's
/// first *k* key-values now, the rest next round). The stream runs to the end of the
/// buffer — a delta is always the last field of a message.
#[derive(Debug, PartialEq, Eq)]
pub struct Delta {
    pub member_deltas: Vec<MemberDelta>,
}

impl View for Delta {
    type V = Seq<MemberDeltaView>;

    open spec fn view(&self) -> Seq<MemberDeltaView> {
        member_delta_views(self.member_deltas@)
    }
}

pub const TAG_MEMBER: u8 = 0;

pub const TAG_KEY_VALUE: u8 = 1;

/// One op of the stream that a delta is on the wire.
pub enum DeltaOp {
    /// The key-values that follow are this member's, continuing from a version.
    Member { member_id: MemberIdView, from_version_excluded: Version },
    /// A key-value of the member named last.
    KeyValue(KeyValueView),
}

/// The ops of one member: its header, then its key-values.
pub open spec fn member_ops(member_delta: MemberDeltaView) -> Seq<DeltaOp> {
    seq![
        DeltaOp::Member {
            member_id: member_delta.member_id,
            from_version_excluded: member_delta.from_version_excluded,
        },
    ] + member_delta.key_values.map_values(|kv: KeyValueView| DeltaOp::KeyValue(kv))
}

/// The ops of a delta, member after member.
pub open spec fn delta_ops(delta: Seq<MemberDeltaView>) -> Seq<DeltaOp>
    decreases delta.len(),
{
    if delta.len() == 0 {
        Seq::empty()
    } else {
        delta_ops(delta.drop_last()) + member_ops(delta.last())
    }
}

pub open spec fn encode_op(op: DeltaOp) -> Seq<u8> {
    match op {
        DeltaOp::Member { member_id, from_version_excluded } => seq![TAG_MEMBER] + encode_member_id(
            member_id,
        ) + encode_u64(from_version_excluded),
        DeltaOp::KeyValue(kv) => seq![TAG_KEY_VALUE] + encode_str(kv.key) + encode_str(kv.value)
            + encode_u64(kv.version),
    }
}

pub open spec fn encode_ops(ops: Seq<DeltaOp>) -> Seq<u8>
    decreases ops.len(),
{
    if ops.len() == 0 {
        Seq::empty()
    } else {
        encode_ops(ops.drop_last()) + encode_op(ops.last())
    }
}

pub open spec fn encode_delta(delta: Seq<MemberDeltaView>) -> Seq<u8> {
    encode_ops(delta_ops(delta))
}

/// A delta extended by one op. A key-value goes to the last member.
pub open spec fn with_op(delta: Seq<MemberDeltaView>, op: DeltaOp) -> Seq<MemberDeltaView> {
    match op {
        DeltaOp::Member { member_id, from_version_excluded } => delta.push(
            MemberDeltaView { member_id, from_version_excluded, key_values: Seq::empty() },
        ),
        DeltaOp::KeyValue(kv) => delta.drop_last().push(delta.last().push(kv)),
    }
}

/// A delta extended by one op, or why the op cannot follow.
pub open spec fn push_op(delta: Seq<MemberDeltaView>, op: DeltaOp) -> Result<
    Seq<MemberDeltaView>,
    DeserializeError,
> {
    match op {
        DeltaOp::KeyValue(kv) if delta.len() == 0 => Err(DeserializeError::KeyValueWithoutMember),
        DeltaOp::KeyValue(kv) if delta.last().reached_version() >= kv.version => Err(
            DeserializeError::VersionNotIncreasing,
        ),
        _ => Ok(with_op(delta, op)),
    }
}

/// Reads what follows the tag of a member op.
pub open spec fn decode_member_op(bytes: Seq<u8>) -> Decoded<DeltaOp> {
    match decode_member_id(bytes) {
        (Ok(member_id), rest) => match decode_u64(rest) {
            (Ok(from_version_excluded), rest) => (
                Ok(DeltaOp::Member { member_id, from_version_excluded }),
                rest,
            ),
            (Err(error), rest) => (Err(error), rest),
        },
        (Err(error), rest) => (Err(error), rest),
    }
}

/// Reads what follows the tag of a key-value op.
pub open spec fn decode_key_value_op(bytes: Seq<u8>) -> Decoded<DeltaOp> {
    match decode_str(bytes) {
        (Ok(key), rest) => match decode_str(rest) {
            (Ok(value), rest) => match decode_u64(rest) {
                (Ok(version), rest) => (
                    Ok(DeltaOp::KeyValue(KeyValueView { key, value, version })),
                    rest,
                ),
                (Err(error), rest) => (Err(error), rest),
            },
            (Err(error), rest) => (Err(error), rest),
        },
        (Err(error), rest) => (Err(error), rest),
    }
}

pub open spec fn decode_op(bytes: Seq<u8>) -> Decoded<DeltaOp> {
    match decode_u8(bytes) {
        (Ok(tag), rest) => if tag == TAG_MEMBER {
            decode_member_op(rest)
        } else if tag == TAG_KEY_VALUE {
            decode_key_value_op(rest)
        } else {
            (Err(DeserializeError::UnknownDeltaTag(tag)), rest)
        },
        (Err(error), rest) => (Err(error), rest),
    }
}

/// Reading an op takes at least its tag.
pub proof fn lemma_decode_op_progress(bytes: Seq<u8>)
    requires
        bytes.len() > 0,
    ensures
        decode_op(bytes).1.len() < bytes.len(),
{
}

/// Reads ops to the end of the bytes, each extending the delta read so far.
pub open spec fn decode_ops(bytes: Seq<u8>, delta: Seq<MemberDeltaView>) -> Decoded<
    Seq<MemberDeltaView>,
>
    decreases bytes.len(),
{
    if bytes.len() == 0 {
        (Ok(delta), bytes)
    } else {
        match decode_op(bytes) {
            (Ok(op), rest) => match push_op(delta, op) {
                Ok(longer) => {
                    proof {
                        lemma_decode_op_progress(bytes);
                    }
                    decode_ops(rest, longer)
                },
                Err(error) => (Err(error), rest),
            },
            (Err(error), rest) => (Err(error), rest),
        }
    }
}

pub open spec fn decode_delta(bytes: Seq<u8>) -> Decoded<Seq<MemberDeltaView>> {
    decode_ops(bytes, Seq::empty())
}

/// Extending a delta by an op appends that op to its stream.
pub proof fn lemma_delta_ops_with_op(delta: Seq<MemberDeltaView>, op: DeltaOp)
    requires
        op is Member || delta.len() > 0,
    ensures
        delta_ops(with_op(delta, op)) == delta_ops(delta).push(op),
        encode_delta(with_op(delta, op)) == encode_delta(delta) + encode_op(op),
{
    let longer = with_op(delta, op);
    match op {
        DeltaOp::Member { .. } => {
            assert(longer.drop_last() =~= delta);
            assert(member_ops(longer.last()) =~= seq![op]);
        },
        DeltaOp::KeyValue(_) => {
            assert(longer.drop_last() =~= delta.drop_last());
            assert(member_ops(longer.last()) =~= member_ops(delta.last()).push(op));
        },
    }
    assert(delta_ops(longer) =~= delta_ops(delta).push(op));
    lemma_encode_ops_push(delta_ops(delta), op);
}

pub proof fn lemma_encode_ops_push(ops: Seq<DeltaOp>, op: DeltaOp)
    ensures
        encode_ops(ops.push(op)) == encode_ops(ops) + encode_op(op),
{
    assert(ops.push(op).drop_last() =~= ops);
}

pub proof fn lemma_encode_ops_concat(a: Seq<DeltaOp>, b: Seq<DeltaOp>)
    ensures
        encode_ops(a + b) == encode_ops(a) + encode_ops(b),
    decreases b.len(),
{
    if b.len() == 0 {
        assert(a + b =~= a);
        assert(encode_ops(a) + encode_ops(b) =~= encode_ops(a));
    } else {
        lemma_encode_ops_concat(a, b.drop_last());
        assert((a + b).drop_last() =~= a + b.drop_last());
        assert(encode_ops(a + b) =~= encode_ops(a) + encode_ops(b));
    }
}

impl KeyValueDelta {
    pub open spec fn op(&self) -> DeltaOp {
        DeltaOp::KeyValue(self@)
    }

    /// Appends the op of this key-value.
    fn serialize_op(&self, buf: &mut Vec<u8>)
        ensures
            final(buf)@ == old(buf)@ + encode_op(self.op()),
    {
        let ghost before = buf@;
        buf.push(TAG_KEY_VALUE);
        self.key.serialize(buf);
        self.value.serialize(buf);
        self.version.serialize(buf);
        assert(buf@ =~= before + encode_op(self.op()));
    }
}

/// The number of bytes of a key-value op.
fn key_value_op_len<K: Serializable + ?Sized, V: Serializable + ?Sized>(
    key: &K,
    value: &V,
    version: Version,
) -> (len: usize)
    ensures
        len == saturated(
            1 + key.encoding().len() + value.encoding().len() + encode_u64(version).len(),
        ),
{
    let ghost k = key.encoding().len();
    let ghost v = value.encoding().len();
    let len = add_lens(1, key.serialized_len(), Ghost(1), Ghost(k));
    let len = add_lens(len, value.serialized_len(), Ghost(1 + k), Ghost(v));
    add_lens(len, version.serialized_len(), Ghost(1 + k + v), Ghost(encode_u64(version).len()))
}

/// The number of bytes of a member op.
fn member_op_len(member_id: &MemberId, from_version_excluded: Version) -> (len: usize)
    ensures
        len == saturated(
            encode_op(DeltaOp::Member { member_id: member_id@, from_version_excluded }).len(),
        ),
{
    let ghost m = member_id.encoding().len();
    let len = add_lens(1, member_id.serialized_len(), Ghost(1), Ghost(m));
    add_lens(
        len,
        from_version_excluded.serialized_len(),
        Ghost(1 + m),
        Ghost(from_version_excluded.encoding().len()),
    )
}

/// The number of bytes that a key-value takes on the wire.
pub fn key_value_serialized_len(kv: &KeyValueDelta) -> (len: usize)
    ensures
        len == saturated(encode_op(kv.op()).len()),
{
    key_value_op_len(&kv.key, &kv.value, kv.version)
}

impl MemberDelta {
    /// The maximum version carried for this member (0 if no key-values).
    pub fn max_version(&self) -> (version: Version)
        ensures
            version == if self@.key_values.len() == 0 {
                0
            } else {
                self@.key_values.last().version
            },
            version == self@.max_version(),
    {
        let len = self.key_values.len();
        if len == 0 {
            0
        } else {
            assert(self@.key_values.last() == self.key_values@[len - 1]@);
            self.key_values[len - 1].version
        }
    }

    /// The version up to which this member delta leads: the last one carried, or the one that
    /// it continues from if it carries none.
    pub fn reached_version(&self) -> (version: Version)
        ensures
            version == if self@.key_values.len() == 0 {
                self@.from_version_excluded
            } else {
                self@.key_values.last().version
            },
            version == self@.reached_version(),
    {
        if self.key_values.len() == 0 {
            self.from_version_excluded
        } else {
            self.max_version()
        }
    }

    /// Appends the ops of this member.
    fn serialize_ops(&self, buf: &mut Vec<u8>)
        ensures
            final(buf)@ == old(buf)@ + encode_ops(member_ops(self@)),
    {
        let ghost before = buf@;
        let ghost ops = member_ops(self@);
        buf.push(TAG_MEMBER);
        self.member_id.serialize(buf);
        self.from_version_excluded.serialize(buf);
        let len = self.key_values.len();
        let mut i: usize = 0;
        proof {
            assert(buf@ =~= before + encode_op(ops[0]));
            lemma_encode_ops_push(Seq::empty(), ops[0]);
            assert(ops.take(1) =~= Seq::empty().push(ops[0]));
            assert(encode_ops(ops.take(1)) =~= encode_op(ops[0]));
        }
        while i < len
            invariant
                i <= len,
                len == self.key_values@.len(),
                ops == member_ops(self@),
                buf@ == before + encode_ops(ops.take(1 + i)),
            decreases len - i,
        {
            self.key_values[i].serialize_op(buf);
            proof {
                assert(ops[1 + i] == self.key_values@[i as int].op());
                assert(ops.take(2 + i) =~= ops.take(1 + i).push(ops[1 + i]));
                lemma_encode_ops_push(ops.take(1 + i), ops[1 + i]);
                assert(buf@ =~= before + encode_ops(ops.take(2 + i)));
            }
            i = i + 1;
        }
        assert(ops.take(1 + len) =~= ops);
    }

    /// The number of bytes that this member takes on the wire.
    pub fn serialized_len(&self) -> (len: usize)
        ensures
            len == saturated(encode_ops(member_ops(self@)).len()),
    {
        let ghost ops = member_ops(self@);
        let count = self.key_values.len();
        let mut len = member_op_len(&self.member_id, self.from_version_excluded);
        let mut i: usize = 0;
        proof {
            lemma_encode_ops_push(Seq::empty(), ops[0]);
            assert(ops.take(1) =~= Seq::empty().push(ops[0]));
            assert(encode_ops(ops.take(1)) =~= encode_op(ops[0]));
        }
        while i < count
            invariant
                i <= count,
                count == self.key_values@.len(),
                ops == member_ops(self@),
                len == saturated(encode_ops(ops.take(1 + i)).len()),
            decreases count - i,
        {
            proof {
                assert(ops[1 + i] == self.key_values@[i as int].op());
                assert(ops.take(2 + i) =~= ops.take(1 + i).push(ops[1 + i]));
                lemma_encode_ops_push(ops.take(1 + i), ops[1 + i]);
            }
            len = add_lens(
                len,
                key_value_serialized_len(&self.key_values[i]),
                Ghost(encode_ops(ops.take(1 + i)).len()),
                Ghost(encode_op(ops[1 + i]).len()),
            );
            i = i + 1;
        }
        assert(ops.take(1 + count) =~= ops);
        len
    }
}

proof fn lemma_encode_delta_step(delta: Seq<MemberDeltaView>, i: int)
    requires
        0 <= i < delta.len(),
    ensures
        encode_delta(delta.take(i + 1)) == encode_delta(delta.take(i)) + encode_ops(
            member_ops(delta[i]),
        ),
{
    assert(delta.take(i + 1).drop_last() =~= delta.take(i));
    lemma_encode_ops_concat(delta_ops(delta.take(i)), member_ops(delta[i]));
}

impl Serializable for Delta {
    open spec fn encoding(&self) -> Seq<u8> {
        encode_delta(self@)
    }

    fn serialize(&self, buf: &mut Vec<u8>) {
        let ghost before = buf@;
        let len = self.member_deltas.len();
        let mut i: usize = 0;
        assert(self@.take(0) =~= Seq::empty());
        assert(buf@ =~= before + encode_delta(self@.take(0)));
        while i < len
            invariant
                i <= len,
                len == self.member_deltas@.len(),
                buf@ == before + encode_delta(self@.take(i as int)),
            decreases len - i,
        {
            self.member_deltas[i].serialize_ops(buf);
            proof {
                assert(self@[i as int] == self.member_deltas@[i as int]@);
                lemma_encode_delta_step(self@, i as int);
                assert(buf@ =~= before + encode_delta(self@.take(i + 1)));
            }
            i = i + 1;
        }
        assert(self@.take(len as int) =~= self@);
        assert(buf@ == before + self.encoding());
    }

    fn serialized_len(&self) -> (len: usize) {
        let count = self.member_deltas.len();
        let mut len: usize = 0;
        let mut i: usize = 0;
        assert(self@.take(0) =~= Seq::empty());
        while i < count
            invariant
                i <= count,
                count == self.member_deltas@.len(),
                len == saturated(encode_delta(self@.take(i as int)).len()),
            decreases count - i,
        {
            proof {
                assert(self@[i as int] == self.member_deltas@[i as int]@);
                lemma_encode_delta_step(self@, i as int);
            }
            len = add_lens(
                len,
                self.member_deltas[i].serialized_len(),
                Ghost(encode_delta(self@.take(i as int)).len()),
                Ghost(encode_ops(member_ops(self@[i as int])).len()),
            );
            i = i + 1;
        }
        assert(self@.take(count as int) =~= self@);
        len
    }
}

impl Default for Delta {
    fn default() -> (delta: Self)
        ensures
            delta@ == Seq::<MemberDeltaView>::empty(),
    {
        Delta { member_deltas: Vec::new() }
    }
}

/// Starts the key-values of another member.
fn push_member(member_deltas: &mut Vec<MemberDelta>, member_id: MemberId, from: Version)
    ensures
        push_op(
            member_delta_views(old(member_deltas)@),
            DeltaOp::Member { member_id: member_id@, from_version_excluded: from },
        ) == Ok::<Seq<MemberDeltaView>, DeserializeError>(
            member_delta_views(final(member_deltas)@),
        ),
{
    let ghost before = member_delta_views(member_deltas@);
    member_deltas.push(
        MemberDelta { member_id, from_version_excluded: from, key_values: Vec::new() },
    );
    proof {
        let added = MemberDeltaView {
            member_id: member_id@,
            from_version_excluded: from,
            key_values: Seq::empty(),
        };
        assert(key_value_views(Seq::empty()) =~= Seq::empty());
        assert(member_deltas@.last()@ == added);
        assert(member_delta_views(member_deltas@) =~= before.push(added));
    }
}

/// Gives the `i`-th member one more key-value.
fn push_key_value(member_deltas: &mut Vec<MemberDelta>, i: usize, kv: KeyValueDelta)
    requires
        i < old(member_deltas)@.len(),
    ensures
        member_delta_views(final(member_deltas)@) == member_delta_views(
            old(member_deltas)@,
        ).update(i as int, old(member_deltas)@[i as int]@.push(kv@)),
{
    let ghost before = member_deltas@;
    member_deltas[i].key_values.push(kv);
    proof {
        let changed = member_deltas@[i as int];
        assert(key_value_views(changed.key_values@) =~= key_value_views(
            before[i as int].key_values@,
        ).push(kv@));
        assert(member_delta_views(member_deltas@) =~= member_delta_views(before).update(
            i as int,
            before[i as int]@.push(kv@),
        ));
    }
}

/// An op, as read.
enum ReadOp {
    Member { member_id: MemberId, from_version_excluded: Version },
    KeyValue(KeyValueDelta),
}

impl ReadOp {
    spec fn op(&self) -> DeltaOp {
        match self {
            ReadOp::Member { member_id, from_version_excluded } => DeltaOp::Member {
                member_id: member_id@,
                from_version_excluded: *from_version_excluded,
            },
            ReadOp::KeyValue(kv) => DeltaOp::KeyValue(kv@),
        }
    }

    /// Reads what follows the tag of a member op.
    fn deserialize_member(buf: &mut &[u8]) -> (result: Result<ReadOp, DeserializeError>)
        ensures
            final(buf)@ == decode_member_op(old(buf)@).1,
            match result {
                Ok(read) => decode_member_op(old(buf)@).0 == Ok::<DeltaOp, DeserializeError>(
                    read.op(),
                ),
                Err(error) => decode_member_op(old(buf)@).0 == Err::<DeltaOp, DeserializeError>(
                    error,
                ),
            },
    {
        let member_id = match MemberId::deserialize(buf) {
            Ok(member_id) => member_id,
            Err(error) => {
                return Err(error);
            },
        };
        match u64::deserialize(buf) {
            Ok(from_version_excluded) => Ok(ReadOp::Member { member_id, from_version_excluded }),
            Err(error) => Err(error),
        }
    }

    /// Reads what follows the tag of a key-value op.
    fn deserialize_key_value(buf: &mut &[u8]) -> (result: Result<ReadOp, DeserializeError>)
        ensures
            final(buf)@ == decode_key_value_op(old(buf)@).1,
            match result {
                Ok(read) => decode_key_value_op(old(buf)@).0 == Ok::<DeltaOp, DeserializeError>(
                    read.op(),
                ),
                Err(error) => decode_key_value_op(old(buf)@).0 == Err::<
                    DeltaOp,
                    DeserializeError,
                >(error),
            },
    {
        let key = match ByteString::deserialize(buf) {
            Ok(key) => key,
            Err(error) => {
                return Err(error);
            },
        };
        let value = match ByteString::deserialize(buf) {
            Ok(value) => value,
            Err(error) => {
                return Err(error);
            },
        };
        match u64::deserialize(buf) {
            Ok(version) => Ok(ReadOp::KeyValue(KeyValueDelta { key, value, version })),
            Err(error) => Err(error),
        }
    }

    /// Reads an op off the front of `buf`.
    fn deserialize(buf: &mut &[u8]) -> (result: Result<ReadOp, DeserializeError>)
        ensures
            final(buf)@ == decode_op(old(buf)@).1,
            match result {
                Ok(read) => decode_op(old(buf)@).0 == Ok::<DeltaOp, DeserializeError>(read.op()),
                Err(error) => decode_op(old(buf)@).0 == Err::<DeltaOp, DeserializeError>(error),
            },
    {
        match u8::deserialize(buf) {
            Ok(tag) => if tag == TAG_MEMBER {
                ReadOp::deserialize_member(buf)
            } else if tag == TAG_KEY_VALUE {
                ReadOp::deserialize_key_value(buf)
            } else {
                Err(DeserializeError::UnknownDeltaTag(tag))
            },
            Err(error) => Err(error),
        }
    }

    /// Extends a delta by this op, if the op can follow.
    fn push_to(self, member_deltas: &mut Vec<MemberDelta>) -> (result: Result<
        (),
        DeserializeError,
    >)
        ensures
            match push_op(member_delta_views(old(member_deltas)@), self.op()) {
                Ok(longer) => result is Ok && member_delta_views(final(member_deltas)@) == longer,
                Err(error) => result == Err::<(), DeserializeError>(error),
            },
    {
        let ghost so_far = member_delta_views(member_deltas@);
        match self {
            ReadOp::Member { member_id, from_version_excluded } => {
                push_member(member_deltas, member_id, from_version_excluded);
            },
            ReadOp::KeyValue(kv) => {
                let count = member_deltas.len();
                if count == 0 {
                    return Err(DeserializeError::KeyValueWithoutMember);
                }
                if member_deltas[count - 1].reached_version() >= kv.version {
                    return Err(DeserializeError::VersionNotIncreasing);
                }
                push_key_value(member_deltas, count - 1, kv);
                assert(member_delta_views(member_deltas@) =~= so_far.drop_last().push(
                    so_far.last().push(kv@),
                ));
            },
        }
        Ok(())
    }
}

impl Deserializable for Delta {
    type Model = Seq<MemberDeltaView>;

    open spec fn model(&self) -> Seq<MemberDeltaView> {
        self@
    }

    open spec fn well_formed(&self) -> bool {
        true
    }

    open spec fn decode(bytes: Seq<u8>) -> Decoded<Seq<MemberDeltaView>> {
        decode_delta(bytes)
    }

    fn deserialize(buf: &mut &[u8]) -> (result: Result<Self, DeserializeError>) {
        let ghost bytes = buf@;
        let mut member_deltas: Vec<MemberDelta> = Vec::new();
        assert(member_delta_views(member_deltas@) =~= Seq::empty());
        // The delta runs to the end of the (message) buffer.
        while buf.len() > 0
            invariant
                bytes == old(buf)@,
                decode_delta(bytes) == decode_ops(buf@, member_delta_views(member_deltas@)),
            decreases buf@.len(),
        {
            proof {
                lemma_decode_op_progress(buf@);
            }
            let read = match ReadOp::deserialize(buf) {
                Ok(read) => read,
                Err(error) => {
                    return Err(error);
                },
            };
            if let Err(error) = read.push_to(&mut member_deltas) {
                return Err(error);
            }
        }
        assert(buf@ =~= Seq::<u8>::empty());
        Ok(Delta { member_deltas })
    }
}

/// `part` holds the first ops of `whole`: its members are complete but for the last one,
/// whose key-values may stop early.
pub open spec fn cut_of(part: Seq<MemberDeltaView>, whole: Seq<MemberDeltaView>) -> bool {
    &&& part.len() <= whole.len()
    &&& forall|i: int|
        0 <= i < part.len() ==> {
            &&& (#[trigger] part[i]).member_id == whole[i].member_id
            &&& part[i].from_version_excluded == whole[i].from_version_excluded
            &&& part[i].key_values.len() <= whole[i].key_values.len()
            &&& part[i].key_values == whole[i].key_values.take(part[i].key_values.len() as int)
        }
    &&& forall|i: int|
        0 <= i < part.len() - 1 ==> (#[trigger] part[i]).key_values.len()
            == whole[i].key_values.len()
}

/// The first op of `whole` that its cut `part` does not hold.
pub open spec fn next_op(part: Seq<MemberDeltaView>, whole: Seq<MemberDeltaView>) -> Option<
    DeltaOp,
> {
    let last = part.len() - 1;
    if part.len() > 0 && part[last].key_values.len() < whole[last].key_values.len() {
        Some(DeltaOp::KeyValue(whole[last].key_values[part[last].key_values.len() as int]))
    } else if part.len() < whole.len() {
        let next = whole[part.len() as int];
        Some(
            DeltaOp::Member {
                member_id: next.member_id,
                from_version_excluded: next.from_version_excluded,
            },
        )
    } else {
        None
    }
}

/// `part` is as much of `whole`, op by op, as fits the mtu.
pub open spec fn largest_cut(
    part: Seq<MemberDeltaView>,
    whole: Seq<MemberDeltaView>,
    mtu: usize,
) -> bool {
    &&& cut_of(part, whole)
    &&& saturated(encode_delta(part).len()) <= mtu
    &&& next_op(part, whole) matches Some(op) ==> saturated(
        encode_delta(part).len() + encode_op(op).len(),
    ) > mtu
}

/// Builds a delta member-by-member, key-value-by-key-value, stopping as soon as the next
/// op would exceed `mtu`. Sizes are exact (no compression).
///
/// Call `try_add_member`, then `try_add_kv`, stopping when one returns `false`.
pub struct DeltaSerializer {
    mtu: usize,
    serialized_len: usize,
    member_deltas: Vec<MemberDelta>,
}

impl DeltaSerializer {
    /// The largest number of bytes that the delta may take.
    pub closed spec fn mtu(&self) -> usize {
        self.mtu
    }

    /// The delta built so far.
    pub closed spec fn delta(&self) -> Seq<MemberDeltaView> {
        member_delta_views(self.member_deltas@)
    }

    /// The running length is that of the delta built so far, which fits the mtu.
    pub closed spec fn wf(&self) -> bool {
        &&& self.serialized_len == saturated(encode_delta(self.delta()).len())
        &&& self.serialized_len <= self.mtu
    }

    /// Whether another op still fits.
    pub open spec fn fits(&self, op: DeltaOp) -> bool {
        saturated(encode_delta(self.delta()).len() + encode_op(op).len()) <= self.mtu()
    }

    pub proof fn lemma_within_mtu(&self)
        requires
            self.wf(),
        ensures
            saturated(encode_delta(self.delta()).len()) <= self.mtu(),
    {
    }

    pub fn with_mtu(mtu: usize) -> (serializer: Self)
        ensures
            serializer.wf(),
            serializer.mtu() == mtu,
            serializer.delta() == Seq::<MemberDeltaView>::empty(),
    {
        let serializer = DeltaSerializer { mtu, serialized_len: 0, member_deltas: Vec::new() };
        assert(serializer.delta() =~= Seq::empty());
        serializer
    }

    /// Starts the key-values of another member, if that still fits.
    #[must_use]
    pub fn try_add_member(&mut self, member_id: MemberId, from_version_excluded: Version) -> (added:
        bool)
        requires
            old(self).wf(),
        ensures
            final(self).wf(),
            final(self).mtu() == old(self).mtu(),
            added == old(self).fits(
                DeltaOp::Member { member_id: member_id@, from_version_excluded },
            ),
            final(self).delta() == if added {
                with_op(
                    old(self).delta(),
                    DeltaOp::Member { member_id: member_id@, from_version_excluded },
                )
            } else {
                old(self).delta()
            },
    {
        let ghost op = DeltaOp::Member { member_id: member_id@, from_version_excluded };
        let op_len = member_op_len(&member_id, from_version_excluded);
        let serialized_len = self.serialized_len.saturating_add(op_len);
        if serialized_len > self.mtu {
            return false;
        }
        proof {
            lemma_delta_ops_with_op(self.delta(), op);
        }
        self.serialized_len = serialized_len;
        push_member(&mut self.member_deltas, member_id, from_version_excluded);
        true
    }

    /// Gives the last member one more key-value, if that still fits.
    #[must_use]
    pub fn try_add_kv(&mut self, key: &str, value: &ByteString, version: Version) -> (added: bool)
        requires
            old(self).wf(),
            old(self).delta().len() > 0 || !old(self).fits(
                DeltaOp::KeyValue(
                    KeyValueView { key: key@, value: byte_string_chars(*value), version },
                ),
            ),
        ensures
            final(self).wf(),
            final(self).mtu() == old(self).mtu(),
            added == old(self).fits(
                DeltaOp::KeyValue(
                    KeyValueView { key: key@, value: byte_string_chars(*value), version },
                ),
            ),
            final(self).delta() == if added {
                with_op(
                    old(self).delta(),
                    DeltaOp::KeyValue(
                        KeyValueView { key: key@, value: byte_string_chars(*value), version },
                    ),
                )
            } else {
                old(self).delta()
            },
    {
        let ghost before = self.delta();
        let ghost op = DeltaOp::KeyValue(
            KeyValueView { key: key@, value: byte_string_chars(*value), version },
        );
        let op_len = key_value_op_len(key, value, version);
        assert(op_len == saturated(encode_op(op).len()));
        let serialized_len = self.serialized_len.saturating_add(op_len);
        if serialized_len > self.mtu {
            return false;
        }
        proof {
            lemma_delta_ops_with_op(before, op);
        }
        self.serialized_len = serialized_len;
        let last = self.member_deltas.len() - 1;
        let kv = KeyValueDelta {
            key: byte_string_from(key.to_owned()),
            value: value.clone(),
            version,
        };
        push_key_value(&mut self.member_deltas, last, kv);
        assert(self.delta() =~= with_op(before, op));
        true
    }

    /// The delta built so far.
    pub fn finish(self) -> (delta: Delta)
        ensures
            delta@ == self.delta(),
    {
        Delta { member_deltas: self.member_deltas }
    }
}

impl Delta {
    /// Starts the key-values of a member that the delta does not hold yet.
    pub fn add_member(&mut self, member_id: MemberId, from_version_excluded: Version)
        requires
            forall|i: int| 0 <= i < old(self)@.len() ==> old(self)@[i].member_id != member_id@,
        ensures
            final(self)@ == old(self)@.push(
                MemberDeltaView {
                    member_id: member_id@,
                    from_version_excluded,
                    key_values: Seq::empty(),
                },
            ),
    {
        push_member(&mut self.member_deltas, member_id, from_version_excluded);
    }

    /// Where the first delta for `member_id` stands.
    fn position(&self, member_id: &MemberId) -> (place: Option<usize>)
        ensures
            match place {
                Some(i) => first_for(self@, member_id@, i as int),
                None => forall|i: int|
                    0 <= i < self@.len() ==> self@[i].member_id != member_id@,
            },
    {
        let mut i: usize = 0;
        while i < self.member_deltas.len()
            invariant
                i <= self.member_deltas@.len(),
                forall|j: int| 0 <= j < i ==> self@[j].member_id != member_id@,
            decreases self.member_deltas@.len() - i,
        {
            assert(self@[i as int] == self.member_deltas@[i as int]@);
            if same_member(&self.member_deltas[i].member_id, member_id) {
                return Some(i);
            }
            i = i + 1;
        }
        None
    }

    /// Gives a member one more key-value. `add_kv` must be called in order of increasing
    /// versions.
    pub fn add_kv(&mut self, member_id: &MemberId, key: &str, value: &str, version: Version)
        requires
            version != 0,
            exists|i: int| #[trigger]
                first_for(old(self)@, member_id@, i) && old(self)@[i].reached_version()
                    < version,
        ensures
            exists|i: int| #[trigger]
                first_for(old(self)@, member_id@, i) && final(self)@ == old(self)@.update(
                    i,
                    old(self)@[i].push(KeyValueView { key: key@, value: value@, version }),
                ),
    {
        let ghost before = self@;
        let i = match self.position(member_id) {
            Some(i) => i,
            None => {
                assert(false);
                0
            },
        };
        let kv = KeyValueDelta {
            key: byte_string_from(key.to_owned()),
            value: byte_string_from(value.to_owned()),
            version,
        };
        push_key_value(&mut self.member_deltas, i, kv);
        assert(first_for(before, member_id@, i as int));
        assert(self@ =~= before.update(
            i as int,
            before[i as int].push(KeyValueView { key: key@, value: value@, version }),
        ));
    }

    /// What the delta holds for a member.
    pub fn get(&self, member_id: &MemberId) -> (member_delta: Option<&MemberDelta>)
        ensures
            match member_delta {
                Some(member_delta) => exists|i: int| #[trigger]
                    first_for(self@, member_id@, i) && *member_delta == self.member_deltas@[i],
                None => forall|i: int|
                    0 <= i < self@.len() ==> self@[i].member_id != member_id@,
            },
    {
        match self.position(member_id) {
            Some(i) => {
                assert(first_for(self@, member_id@, i as int));
                Some(&self.member_deltas[i])
            },
            None => None,
        }
    }
}

/// The `i`-th member delta is the first one for `member_id`.
pub open spec fn first_for(
    delta: Seq<MemberDeltaView>,
    member_id: MemberIdView,
    i: int,
) -> bool {
    &&& 0 <= i < delta.len()
    &&& delta[i].member_id == member_id
    &&& forall|j: int| 0 <= j < i ==> delta[j].member_id != member_id
}

// ---------------------------------------------------------------------------
// Laws

/// The versions that a member delta carries increase strictly, starting above the version
/// that it continues from.
pub open spec fn increasing(member_delta: MemberDeltaView) -> bool {
    &&& forall|j: int|
        0 <= j < member_delta.key_values.len() ==> member_delta.from_version_excluded
            < #[trigger] member_delta.key_values[j].version
    &&& forall|i: int, j: int|
        0 <= i < j < member_delta.key_values.len() ==> (#[trigger] member_delta.key_values[i]).version
            < (#[trigger] member_delta.key_values[j]).version
}

/// A key-value that loses nothing on the wire.
pub open spec fn sendable_key_value(kv: KeyValueView) -> bool {
    sendable_str(kv.key) && sendable_str(kv.value)
}

/// A delta that loses nothing on the wire.
pub open spec fn sendable_delta(delta: Seq<MemberDeltaView>) -> bool {
    forall|i: int|
        0 <= i < delta.len() ==> {
            &&& sendable_member_id((#[trigger] delta[i]).member_id)
            &&& increasing(delta[i])
            &&& forall|j: int|
                0 <= j < delta[i].key_values.len() ==> sendable_key_value(
                    #[trigger] delta[i].key_values[j],
                )
        }
}

spec fn sendable_op(op: DeltaOp) -> bool {
    match op {
        DeltaOp::Member { member_id, .. } => sendable_member_id(member_id),
        DeltaOp::KeyValue(kv) => sendable_key_value(kv),
    }
}

/// A delta extended by a stream of ops, or why the first op that cannot follow cannot.
spec fn push_ops(delta: Seq<MemberDeltaView>, ops: Seq<DeltaOp>) -> Result<
    Seq<MemberDeltaView>,
    DeserializeError,
>
    decreases ops.len(),
{
    if ops.len() == 0 {
        Ok(delta)
    } else {
        match push_op(delta, ops[0]) {
            Ok(longer) => push_ops(longer, ops.drop_first()),
            Err(error) => Err(error),
        }
    }
}

proof fn lemma_push_ops_concat(delta: Seq<MemberDeltaView>, a: Seq<DeltaOp>, b: Seq<DeltaOp>)
    requires
        push_ops(delta, a) is Ok,
    ensures
        push_ops(delta, a + b) == push_ops(push_ops(delta, a)->Ok_0, b),
    decreases a.len(),
{
    if a.len() == 0 {
        assert(a + b =~= b);
    } else {
        assert((a + b).drop_first() =~= a.drop_first() + b);
        lemma_push_ops_concat(push_op(delta, a[0])->Ok_0, a.drop_first(), b);
    }
}

proof fn lemma_op_round_trip(op: DeltaOp, rest: Seq<u8>)
    requires
        sendable_op(op),
    ensures
        decode_op(encode_op(op) + rest) == (Ok::<DeltaOp, DeserializeError>(op), rest),
{
    match op {
        DeltaOp::Member { member_id, from_version_excluded } => {
            let from = encode_u64(from_version_excluded);
            assert(encode_op(op) + rest =~= seq![TAG_MEMBER] + (encode_member_id(member_id) + (from
                + rest)));
            law_u8_round_trip(TAG_MEMBER, encode_member_id(member_id) + (from + rest));
            law_member_id_round_trip(member_id, from + rest);
            law_u64_round_trip(from_version_excluded, rest);
        },
        DeltaOp::KeyValue(kv) => {
            let version = encode_u64(kv.version);
            let value = encode_str(kv.value);
            assert(encode_op(op) + rest =~= seq![TAG_KEY_VALUE] + (encode_str(kv.key) + (value + (
            version + rest))));
            law_u8_round_trip(TAG_KEY_VALUE, encode_str(kv.key) + (value + (version + rest)));
            law_str_round_trip(kv.key, value + (version + rest));
            law_str_round_trip(kv.value, version + rest);
            law_u64_round_trip(kv.version, rest);
        },
    }
}

proof fn lemma_ops_round_trip(delta: Seq<MemberDeltaView>, ops: Seq<DeltaOp>)
    requires
        forall|i: int| 0 <= i < ops.len() ==> sendable_op(#[trigger] ops[i]),
        push_ops(delta, ops) is Ok,
    ensures
        decode_ops(encode_ops(ops), delta) == (push_ops(delta, ops), Seq::<u8>::empty()),
    decreases ops.len(),
{
    if ops.len() > 0 {
        let rest = ops.drop_first();
        assert(seq![ops[0]] + rest =~= ops);
        lemma_encode_ops_concat(seq![ops[0]], rest);
        lemma_encode_ops_push(Seq::empty(), ops[0]);
        assert(Seq::<DeltaOp>::empty().push(ops[0]) =~= seq![ops[0]]);
        assert(encode_ops(ops) =~= encode_op(ops[0]) + encode_ops(rest));
        lemma_op_round_trip(ops[0], encode_ops(rest));
        lemma_ops_round_trip(push_op(delta, ops[0])->Ok_0, rest);
    }
}

proof fn lemma_push_member_ops(
    delta: Seq<MemberDeltaView>,
    member_delta: MemberDeltaView,
    count: int,
)
    requires
        increasing(member_delta),
        0 <= count <= member_delta.key_values.len(),
    ensures
        push_ops(delta, member_ops(member_delta).take(1 + count)) == Ok::<
            Seq<MemberDeltaView>,
            DeserializeError,
        >(
            delta.push(
                (MemberDeltaView {
                    key_values: member_delta.key_values.take(count),
                    ..member_delta
                }),
            ),
        ),
    decreases count,
{
    let ops = member_ops(member_delta);
    let read = ops.take(1 + count);
    reveal_with_fuel(push_ops, 2);
    if count == 0 {
        assert(read =~= seq![ops[0]]);
        assert(read.drop_first() =~= Seq::empty());
        assert(member_delta.key_values.take(0) =~= Seq::empty());
    } else {
        lemma_push_member_ops(delta, member_delta, count - 1);
        let before = ops.take(count);
        let kv = member_delta.key_values[count - 1];
        let last = seq![DeltaOp::KeyValue(kv)];
        assert(read =~= before + last);
        lemma_push_ops_concat(delta, before, last);
        let so_far = push_ops(delta, before)->Ok_0;
        let shorter = member_delta.key_values.take(count - 1);
        assert(so_far.last().key_values == shorter);
        assert(so_far.last().reached_version() < kv.version);
        assert(last.drop_first() =~= Seq::empty());
        assert(shorter.push(kv) =~= member_delta.key_values.take(count));
        assert(with_op(so_far, last[0]) =~= delta.push(
            (MemberDeltaView { key_values: shorter.push(kv), ..member_delta }),
        ));
    }
}

proof fn lemma_push_delta_ops(delta: Seq<MemberDeltaView>)
    requires
        sendable_delta(delta),
    ensures
        push_ops(Seq::empty(), delta_ops(delta)) == Ok::<Seq<MemberDeltaView>, DeserializeError>(
            delta,
        ),
        forall|i: int| 0 <= i < delta_ops(delta).len() ==> sendable_op(#[trigger] delta_ops(delta)[i]),
    decreases delta.len(),
{
    if delta.len() == 0 {
        assert(delta =~= Seq::empty());
    } else {
        let front = delta.drop_last();
        let last = delta.last();
        assert(sendable_delta(front)) by {
            assert forall|i: int| 0 <= i < front.len() implies #[trigger] front[i] == delta[i] by {}
        }
        lemma_push_delta_ops(front);
        lemma_push_ops_concat(Seq::empty(), delta_ops(front), member_ops(last));
        assert(last == delta[delta.len() - 1]);
        lemma_push_member_ops(front, last, last.key_values.len() as int);
        assert(member_ops(last).take(1 + last.key_values.len() as int) =~= member_ops(last));
        assert(last.key_values.take(last.key_values.len() as int) =~= last.key_values);
        assert(front.push(last) =~= delta);
        assert forall|i: int| 0 <= i < delta_ops(delta).len() implies sendable_op(
            #[trigger] delta_ops(delta)[i],
        ) by {
            let k = i - delta_ops(front).len();
            if k < 0 {
                assert(delta_ops(delta)[i] == delta_ops(front)[i]);
            } else if k > 0 {
                assert(delta_ops(delta)[i] == DeltaOp::KeyValue(last.key_values[k - 1]));
                assert(sendable_key_value(last.key_values[k - 1]));
            }
        }
    }
}

/// A delta that loses nothing on the wire is read back as it was written.
pub proof fn law_delta_round_trip(delta: Seq<MemberDeltaView>)
    requires
        sendable_delta(delta),
    ensures
        decode_delta(encode_delta(delta)) == (
            Ok::<Seq<MemberDeltaView>, DeserializeError>(delta),
            Seq::<u8>::empty(),
        ),
{
    lemma_push_delta_ops(delta);
    lemma_ops_round_trip(Seq::empty(), delta_ops(delta));
}

proof fn lemma_decoded_increases(bytes: Seq<u8>, delta: Seq<MemberDeltaView>)
    requires
        forall|i: int| 0 <= i < delta.len() ==> increasing(#[trigger] delta[i]),
    ensures
        decode_ops(bytes, delta).0 matches Ok(read) ==> forall|i: int|
            0 <= i < read.len() ==> increasing(#[trigger] read[i]),
    decreases bytes.len(),
{
    if bytes.len() > 0 {
        lemma_decode_op_progress(bytes);
        let (op, rest) = decode_op(bytes);
        if op is Ok && push_op(delta, op->Ok_0) is Ok {
            let longer = push_op(delta, op->Ok_0)->Ok_0;
            assert forall|i: int| 0 <= i < longer.len() implies increasing(#[trigger] longer[i]) by {
                if i < delta.len() - 1 {
                    assert(longer[i] == delta[i]);
                } else if op->Ok_0 is Member && i == delta.len() - 1 {
                    assert(longer[i] == delta[i]);
                } else if op->Ok_0 is KeyValue {
                    assert(increasing(delta[i]));
                    let known = delta[i].key_values;
                    if known.len() > 0 {
                        assert(delta[i].from_version_excluded < known[known.len() - 1].version);
                        assert forall|k: int| 0 <= k < known.len() implies (
                        #[trigger] known[k]).version <= known[known.len() - 1].version by {
                            if k < known.len() - 1 {
                                assert(known[k].version < known[known.len() - 1].version);
                            }
                        }
                    }
                }
            }
            lemma_decoded_increases(rest, longer);
        }
    }
}

/// Whatever bytes a delta was read from, each member's versions increase strictly, starting
/// above the version that the member's key-values continue from.
pub proof fn law_decoded_delta_increases(bytes: Seq<u8>)
    ensures
        decode_delta(bytes).0 matches Ok(delta) ==> forall|i: int|
            0 <= i < delta.len() ==> increasing(#[trigger] delta[i]),
{
    lemma_decoded_increases(bytes, Seq::empty());
}

proof fn lemma_regroup(a: Seq<u8>, b: Seq<u8>, c: Seq<u8>, d: Seq<u8>)
    ensures
        a + (b + (c + d)) == a + b + c + d,
{
    assert(a + (b + (c + d)) =~= a + b + c + d);
}

proof fn lemma_member_op_is_written_back(bytes: Seq<u8>)
    ensures
        decode_member_op(bytes) matches (Ok(op), rest) ==> seq![TAG_MEMBER] + bytes == encode_op(op)
            + rest,
{
    let (member_id, after_id) = decode_member_id(bytes);
    let (from, rest) = decode_u64(after_id);
    law_member_id_is_written_back(bytes);
    law_u64_is_written_back(after_id);
    lemma_regroup(
        seq![TAG_MEMBER],
        encode_member_id(member_id->Ok_0),
        encode_u64(from->Ok_0),
        rest,
    );
}

proof fn lemma_key_value_op_is_written_back(bytes: Seq<u8>)
    ensures
        decode_key_value_op(bytes) matches (Ok(op), rest) ==> seq![TAG_KEY_VALUE] + bytes
            == encode_op(op) + rest,
{
    let (key, after_key) = decode_str(bytes);
    let (value, after_value) = decode_str(after_key);
    let (version, rest) = decode_u64(after_value);
    law_str_is_written_back(bytes);
    law_str_is_written_back(after_key);
    law_u64_is_written_back(after_value);
    lemma_regroup(
        seq![TAG_KEY_VALUE],
        encode_str(key->Ok_0),
        encode_str(value->Ok_0),
        encode_u64(version->Ok_0) + rest,
    );
    lemma_regroup(
        seq![TAG_KEY_VALUE] + encode_str(key->Ok_0),
        encode_str(value->Ok_0),
        encode_u64(version->Ok_0),
        rest,
    );
}

proof fn lemma_op_is_written_back(bytes: Seq<u8>)
    ensures
        decode_op(bytes) matches (Ok(op), rest) ==> bytes == encode_op(op) + rest,
{
    if bytes.len() > 0 {
        lemma_member_op_is_written_back(bytes.skip(1));
        lemma_key_value_op_is_written_back(bytes.skip(1));
        assert(bytes =~= seq![bytes[0]] + bytes.skip(1));
    }
}

proof fn lemma_ops_are_written_back(bytes: Seq<u8>, delta: Seq<MemberDeltaView>)
    ensures
        decode_ops(bytes, delta).0 matches Ok(read) ==> encode_delta(read) == encode_delta(delta)
            + bytes,
    decreases bytes.len(),
{
    if decode_ops(bytes, delta).0 is Ok {
        if bytes.len() == 0 {
            assert(encode_delta(delta) + bytes =~= encode_delta(delta));
        } else {
            lemma_decode_op_progress(bytes);
            lemma_op_is_written_back(bytes);
            let (op, rest) = decode_op(bytes);
            let longer = push_op(delta, op->Ok_0)->Ok_0;
            lemma_delta_ops_with_op(delta, op->Ok_0);
            lemma_ops_are_written_back(rest, longer);
            assert(encode_delta(longer) + rest =~= encode_delta(delta) + (encode_op(op->Ok_0)
                + rest));
        }
    }
}

/// Bytes that a delta was read from are written back as they were.
pub proof fn law_delta_is_written_back(bytes: Seq<u8>)
    ensures
        decode_delta(bytes).0 matches Ok(delta) ==> encode_delta(delta) == bytes,
{
    lemma_ops_are_written_back(bytes, Seq::empty());
    assert(encode_delta(Seq::empty()) + bytes =~= bytes);
}

/// No delta takes no bytes; a member that is added takes a zero, its identity, and the version
/// that it continues from; and a key-value that is added to the last member takes a one, its
/// key, its value, and its version.
pub proof fn law_delta_bytes(
    delta: Seq<MemberDeltaView>,
    member_id: MemberIdView,
    from: Version,
    kv: KeyValueView,
)
    ensures
        encode_delta(Seq::empty()) == Seq::<u8>::empty(),
        encode_delta(
            delta.push(
                (MemberDeltaView {
                    member_id,
                    from_version_excluded: from,
                    key_values: Seq::empty(),
                }),
            ),
        ) == encode_delta(delta) + (seq![0u8] + encode_member_id(member_id) + encode_u64(from)),
        delta.len() > 0 ==> encode_delta(
            delta.update(
                delta.len() - 1,
                (MemberDeltaView {
                    key_values: delta.last().key_values.push(kv),
                    ..delta.last()
                }),
            ),
        ) == encode_delta(delta) + (seq![1u8] + encode_str(kv.key) + encode_str(kv.value)
            + encode_u64(kv.version)),
{
    lemma_delta_ops_with_op(delta, DeltaOp::Member { member_id, from_version_excluded: from });
    if delta.len() > 0 {
        let longer = MemberDeltaView {
            key_values: delta.last().key_values.push(kv),
            ..delta.last()
        };
        lemma_delta_ops_with_op(delta, DeltaOp::KeyValue(kv));
        assert(delta.update(delta.len() - 1, longer) =~= delta.drop_last().push(longer));
    }
}

proof fn lemma_ops_are_read(delta: Seq<MemberDeltaView>, ops: Seq<DeltaOp>, rest: Seq<u8>)
    requires
        forall|i: int| 0 <= i < ops.len() ==> sendable_op(#[trigger] ops[i]),
        push_ops(delta, ops) is Ok,
    ensures
        decode_ops(encode_ops(ops) + rest, delta) == decode_ops(rest, push_ops(delta, ops)->Ok_0),
    decreases ops.len(),
{
    if ops.len() == 0 {
        assert(encode_ops(ops) + rest =~= rest);
    } else {
        let later = ops.drop_first();
        assert(seq![ops[0]] + later =~= ops);
        lemma_encode_ops_concat(seq![ops[0]], later);
        lemma_encode_ops_push(Seq::empty(), ops[0]);
        assert(Seq::<DeltaOp>::empty().push(ops[0]) =~= seq![ops[0]]);
        assert(encode_ops(ops) + rest =~= encode_op(ops[0]) + (encode_ops(later) + rest));
        lemma_op_round_trip(ops[0], encode_ops(later) + rest);
        lemma_ops_are_read(push_op(delta, ops[0])->Ok_0, later, rest);
    }
}

/// Whatever was read before, an op with another tag than zero or one is refused.
pub proof fn law_unknown_tags_are_refused(delta: Seq<MemberDeltaView>, tag: u8, rest: Seq<u8>)
    requires
        sendable_delta(delta),
        tag > 1,
    ensures
        decode_delta(encode_delta(delta) + (seq![tag] + rest)) == (
            Err::<Seq<MemberDeltaView>, DeserializeError>(DeserializeError::UnknownDeltaTag(tag)),
            rest,
        ),
{
    lemma_push_delta_ops(delta);
    lemma_ops_are_read(Seq::empty(), delta_ops(delta), seq![tag] + rest);
    law_u8_round_trip(tag, rest);
}

/// A key-value is refused where no member was named before it.
pub proof fn law_key_values_follow_a_member(kv: KeyValueView, rest: Seq<u8>)
    requires
        sendable_key_value(kv),
    ensures
        decode_delta(
            seq![1u8] + encode_str(kv.key) + encode_str(kv.value) + encode_u64(kv.version) + rest,
        ) == (
            Err::<Seq<MemberDeltaView>, DeserializeError>(DeserializeError::KeyValueWithoutMember),
            rest,
        ),
{
    lemma_op_round_trip(DeltaOp::KeyValue(kv), rest);
}

/// A key-value is refused if its version is not above that of the key-value of its member
/// before it or, if it is the first, above the version that its member continues from.
pub proof fn law_versions_have_to_increase(
    delta: Seq<MemberDeltaView>,
    kv: KeyValueView,
    rest: Seq<u8>,
)
    requires
        sendable_delta(delta),
        sendable_key_value(kv),
        delta.len() > 0,
        kv.version <= if delta.last().key_values.len() == 0 {
            delta.last().from_version_excluded
        } else {
            delta.last().key_values.last().version
        },
    ensures
        decode_delta(
            encode_delta(delta) + (seq![1u8] + encode_str(kv.key) + encode_str(kv.value)
                + encode_u64(kv.version) + rest),
        ) == (
            Err::<Seq<MemberDeltaView>, DeserializeError>(DeserializeError::VersionNotIncreasing),
            rest,
        ),
{
    let op = DeltaOp::KeyValue(kv);
    let tail = encode_op(op) + rest;
    lemma_push_delta_ops(delta);
    lemma_op_round_trip(op, rest);
    lemma_ops_are_read(Seq::empty(), delta_ops(delta), tail);
    assert(tail.len() > 0);
    assert(decode_ops(tail, delta) == (
        Err::<Seq<MemberDeltaView>, DeserializeError>(DeserializeError::VersionNotIncreasing),
        rest,
    ));
}

/// Where versions increase, the maximum version of a member delta is the highest one carried, or
/// zero if none is; what it reaches is the highest one carried, or where it continues from.
pub proof fn law_highest_version_carried(member_delta: MemberDeltaView)
    requires
        increasing(member_delta),
    ensures
        ({
            let kvs = member_delta.key_values;
            let max = member_delta.max_version();
            &&& kvs.len() == 0 ==> {
                &&& max == 0
                &&& member_delta.reached_version() == member_delta.from_version_excluded
            }
            &&& kvs.len() > 0 ==> {
                &&& member_delta.reached_version() == max
                &&& exists|j: int| 0 <= j < kvs.len() && (#[trigger] kvs[j]).version == max
            }
            &&& forall|j: int| 0 <= j < kvs.len() ==> (#[trigger] kvs[j]).version <= max
        }),
{
    let kvs = member_delta.key_values;
    if kvs.len() > 0 {
        assert(kvs[kvs.len() - 1].version == member_delta.max_version());
    }
}

/// An op still fits exactly if the delta that it makes takes no more than the mtu.
pub proof fn law_what_still_fits(
    serializer: DeltaSerializer,
    member_id: MemberIdView,
    from: Version,
    kv: KeyValueView,
)
    ensures
        ({
            let delta = serializer.delta();
            let member = MemberDeltaView {
                member_id,
                from_version_excluded: from,
                key_values: Seq::empty(),
            };
            let last = MemberDeltaView {
                key_values: delta.last().key_values.push(kv),
                ..delta.last()
            };
            &&& serializer.fits(DeltaOp::Member { member_id, from_version_excluded: from })
                <==> serializer.mtu() == usize::MAX || encode_delta(delta.push(member)).len()
                <= serializer.mtu()
            &&& with_op(delta, DeltaOp::Member { member_id, from_version_excluded: from })
                == delta.push(member)
            &&& delta.len() > 0 ==> {
                &&& serializer.fits(DeltaOp::KeyValue(kv)) <==> serializer.mtu() == usize::MAX
                    || encode_delta(delta.update(delta.len() - 1, last)).len() <= serializer.mtu()
                &&& with_op(delta, DeltaOp::KeyValue(kv)) == delta.update(delta.len() - 1, last)
            }
        }),
{
    let delta = serializer.delta();
    let last = MemberDeltaView { key_values: delta.last().key_values.push(kv), ..delta.last() };
    lemma_delta_ops_with_op(delta, DeltaOp::Member { member_id, from_version_excluded: from });
    if delta.len() > 0 {
        lemma_delta_ops_with_op(delta, DeltaOp::KeyValue(kv));
        assert(delta.update(delta.len() - 1, last) =~= delta.drop_last().push(last));
    }
}

} // verus!
