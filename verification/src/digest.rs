//! What a member knows, in brief: the version vector that drives reconciliation.
use crate::ordered_map::{entries_map, OrderedMap};
use crate::serialize::{
    add_lens, decode_member_id, decode_u16, decode_u64, encode_member_id, encode_u16, encode_u64,
    law_member_id_round_trip, law_missing_bytes_are_refused, law_numbers_are_read, law_u16_bytes,
    law_u16_round_trip, law_u64_round_trip, lemma_le_bytes_len, saturated, sendable_member_id,
    Decoded, Deserializable, DeserializeError, Serializable,
};
use crate::types::{same_member, Heartbeat, MemberId, MemberIdView, Version};
use vstd::prelude::*;

verus! {

/// A per-member digest entry: the member's heartbeat and how many of its key-values the
/// sender holds (`max_version`, a contiguous prefix count).
#[derive(Debug, Clone, Copy, PartialEq, Eq, Structural)]
pub struct MemberDigest {
    pub heartbeat: Heartbeat,
    pub max_version: Version,
}

impl Default for MemberDigest {
    fn default() -> (digest: Self)
        ensures
            digest == (MemberDigest { heartbeat: Heartbeat(0), max_version: 0 }),
    {
        MemberDigest { heartbeat: Heartbeat(0), max_version: 0 }
    }
}

/// A digest entry: the heartbeat, then the version.
pub open spec fn encode_member_digest(digest: MemberDigest) -> Seq<u8> {
    encode_u64(digest.heartbeat.0) + encode_u64(digest.max_version)
}

pub open spec fn decode_member_digest(bytes: Seq<u8>) -> Decoded<MemberDigest> {
    match decode_u64(bytes) {
        (Ok(beats), rest) => match decode_u64(rest) {
            (Ok(max_version), rest) => (
                Ok(MemberDigest { heartbeat: Heartbeat(beats), max_version }),
                rest,
            ),
            (Err(error), rest) => (Err(error), rest),
        },
        (Err(error), rest) => (Err(error), rest),
    }
}

impl Serializable for MemberDigest {
    open spec fn encoding(&self) -> Seq<u8> {
        encode_member_digest(*self)
    }

    fn serialize(&self, buf: &mut Vec<u8>) {
        let ghost before = buf@;
        self.heartbeat.serialize(buf);
        self.max_version.serialize(buf);
        assert(buf@ =~= before + self.encoding());
    }

    fn serialized_len(&self) -> (len: usize) {
        add_lens(
            self.heartbeat.serialized_len(),
            self.max_version.serialized_len(),
            Ghost(self.heartbeat.encoding().len()),
            Ghost(self.max_version.encoding().len()),
        )
    }
}

impl Deserializable for MemberDigest {
    type Model = MemberDigest;

    open spec fn model(&self) -> MemberDigest {
        *self
    }

    open spec fn well_formed(&self) -> bool {
        true
    }

    open spec fn decode(bytes: Seq<u8>) -> Decoded<MemberDigest> {
        decode_member_digest(bytes)
    }

    fn deserialize(buf: &mut &[u8]) -> (result: Result<Self, DeserializeError>) {
        let heartbeat = match Heartbeat::deserialize(buf) {
            Ok(heartbeat) => heartbeat,
            Err(error) => {
                return Err(error);
            },
        };
        match <Version as Deserializable>::deserialize(buf) {
            Ok(max_version) => Ok(MemberDigest { heartbeat, max_version }),
            Err(error) => Err(error),
        }
    }
}

/// A digest summarizes, for each member the sender knows about, its heartbeat and the
/// version up to which the sender holds that member's key-values. It is both the
/// membership view and the version vector driving reconciliation.
#[derive(Debug)]
pub struct Digest {
    pub member_digests: OrderedMap<MemberId, MemberDigest>,
}

impl View for Digest {
    type V = Map<MemberIdView, MemberDigest>;

    open spec fn view(&self) -> Map<MemberIdView, MemberDigest> {
        self.member_digests@
    }
}

/// A digest entry by entry, each entry the identity and then its digest.
pub open spec fn encode_entries(entries: Seq<(MemberId, MemberDigest)>) -> Seq<u8>
    decreases entries.len(),
{
    if entries.len() == 0 {
        Seq::empty()
    } else {
        encode_member_id(entries[0].0@) + encode_member_digest(entries[0].1) + encode_entries(
            entries.drop_first(),
        )
    }
}

/// The low sixteen bits of the number of entries, then the entries.
pub open spec fn encode_digest(entries: Seq<(MemberId, MemberDigest)>) -> Seq<u8> {
    encode_u16((entries.len() % 0x1_0000) as u16) + encode_entries(entries)
}

/// Reads `count` entries into `digests`; of two entries for one member the later stays.
pub open spec fn decode_entries(
    bytes: Seq<u8>,
    count: nat,
    digests: Map<MemberIdView, MemberDigest>,
) -> Decoded<Map<MemberIdView, MemberDigest>>
    decreases count,
{
    if count == 0 {
        (Ok(digests), bytes)
    } else {
        match decode_member_id(bytes) {
            (Ok(member_id), rest) => match decode_member_digest(rest) {
                (Ok(digest), rest) => decode_entries(
                    rest,
                    (count - 1) as nat,
                    digests.insert(member_id, digest),
                ),
                (Err(error), rest) => (Err(error), rest),
            },
            (Err(error), rest) => (Err(error), rest),
        }
    }
}

pub open spec fn decode_digest(bytes: Seq<u8>) -> Decoded<Map<MemberIdView, MemberDigest>> {
    match decode_u16(bytes) {
        (Ok(count), rest) => decode_entries(rest, count as nat, Map::empty()),
        (Err(error), rest) => (Err(error), rest),
    }
}

impl Digest {
    /// No member occurs twice.
    pub open spec fn wf(&self) -> bool {
        self.member_digests.wf()
    }

    /// The entries, by what they mean.
    pub open spec fn entry_views(&self) -> Seq<(MemberIdView, MemberDigest)> {
        self.member_digests.entries().map_values(
            |entry: (MemberId, MemberDigest)| (entry.0@, entry.1),
        )
    }

    /// Adds a member to the digest.
    pub fn add_member(&mut self, member: MemberId, heartbeat: Heartbeat, max_version: Version)
        requires
            old(self).wf(),
        ensures
            final(self).wf(),
            final(self)@ == old(self)@.insert(
                member@,
                (MemberDigest { heartbeat, max_version }),
            ),
    {
        self.member_digests.insert(member, MemberDigest { heartbeat, max_version });
    }
}

impl Default for Digest {
    fn default() -> (digest: Self)
        ensures
            digest.wf(),
            digest.member_digests.entries().len() == 0,
            digest@ == Map::<MemberIdView, MemberDigest>::empty(),
    {
        Digest { member_digests: OrderedMap::new() }
    }
}

impl PartialEq for Digest {
    fn eq(&self, other: &Digest) -> (equal: bool) {
        let len = self.member_digests.len();
        if len != other.member_digests.len() {
            return false;
        }
        let mut i: usize = 0;
        while i < len
            invariant
                i <= len,
                len == self.member_digests.entries().len(),
                len == other.member_digests.entries().len(),
                forall|j: int|
                    0 <= j < i ==> self.entry_views()[j] == other.entry_views()[j],
            decreases len - i,
        {
            assert(self.entry_views()[i as int] == (
                self.member_digests.entries()[i as int].0@,
                self.member_digests.entries()[i as int].1,
            ));
            assert(other.entry_views()[i as int] == (
                other.member_digests.entries()[i as int].0@,
                other.member_digests.entries()[i as int].1,
            ));
            if !same_member(self.member_digests.key_at(i), other.member_digests.key_at(i)) {
                return false;
            }
            if *self.member_digests.value_at(i) != *other.member_digests.value_at(i) {
                return false;
            }
            i = i + 1;
        }
        assert(self.entry_views() =~= other.entry_views());
        true
    }
}

impl vstd::std_specs::cmp::PartialEqSpecImpl for Digest {
    open spec fn obeys_eq_spec() -> bool {
        true
    }

    open spec fn eq_spec(&self, other: &Digest) -> bool {
        self.entry_views() == other.entry_views()
    }
}

impl Eq for Digest {

}

impl Serializable for Digest {
    open spec fn encoding(&self) -> Seq<u8> {
        encode_digest(self.member_digests.entries())
    }

    fn serialize(&self, buf: &mut Vec<u8>) {
        let ghost before = buf@;
        let ghost entries = self.member_digests.entries();
        let len = self.member_digests.len();
        let count: u16 = (len % 0x1_0000) as u16;
        count.serialize(buf);
        let mut i: usize = 0;
        assert(entries.skip(0) =~= entries);
        assert(buf@ + encode_entries(entries.skip(0)) =~= before + self.encoding());
        while i < len
            invariant
                i <= len,
                len == entries.len(),
                entries == self.member_digests.entries(),
                buf@ + encode_entries(entries.skip(i as int)) == before + self.encoding(),
            decreases len - i,
        {
            let ghost written = buf@;
            self.member_digests.key_at(i).serialize(buf);
            self.member_digests.value_at(i).serialize(buf);
            proof {
                let rest = entries.skip(i as int);
                assert(rest.drop_first() =~= entries.skip(i + 1));
                assert(rest[0] == entries[i as int]);
                assert(buf@ + encode_entries(entries.skip(i + 1)) =~= written + encode_entries(rest));
            }
            i = i + 1;
        }
        assert(entries.skip(len as int) =~= Seq::empty());
        assert(buf@ =~= buf@ + encode_entries(entries.skip(len as int)));
    }

    fn serialized_len(&self) -> (len: usize) {
        let ghost entries = self.member_digests.entries();
        let count = self.member_digests.len();
        let mut len: usize = 2;
        let ghost mut exact: nat = 2;
        let mut i: usize = 0;
        proof {
            lemma_le_bytes_len((entries.len() % 0x1_0000) as u16 as nat, 2);
            assert(entries.skip(0) =~= entries);
        }
        while i < count
            invariant
                i <= count,
                count == entries.len(),
                entries == self.member_digests.entries(),
                len == saturated(exact),
                exact + encode_entries(entries.skip(i as int)).len() == self.encoding().len(),
            decreases count - i,
        {
            let key = self.member_digests.key_at(i);
            let value = self.member_digests.value_at(i);
            let ghost key_len = key.encoding().len();
            let ghost value_len = value.encoding().len();
            proof {
                let rest = entries.skip(i as int);
                assert(rest.drop_first() =~= entries.skip(i + 1));
                assert(rest[0] == entries[i as int]);
            }
            len = add_lens(len, key.serialized_len(), Ghost(exact), Ghost(key_len));
            len = add_lens(len, value.serialized_len(), Ghost(exact + key_len), Ghost(value_len));
            proof {
                exact = exact + key_len + value_len;
            }
            i = i + 1;
        }
        assert(entries.skip(count as int) =~= Seq::empty());
        len
    }
}

impl Deserializable for Digest {
    type Model = Map<MemberIdView, MemberDigest>;

    open spec fn model(&self) -> Map<MemberIdView, MemberDigest> {
        self@
    }

    open spec fn well_formed(&self) -> bool {
        self.wf()
    }

    open spec fn decode(bytes: Seq<u8>) -> Decoded<Map<MemberIdView, MemberDigest>> {
        decode_digest(bytes)
    }

    fn deserialize(buf: &mut &[u8]) -> (result: Result<Self, DeserializeError>) {
        let ghost bytes = buf@;
        let count = match u16::deserialize(buf) {
            Ok(count) => count,
            Err(error) => {
                return Err(error);
            },
        };
        let mut member_digests: OrderedMap<MemberId, MemberDigest> = OrderedMap::new();
        let mut i: u16 = 0;
        while i < count
            invariant
                i <= count,
                member_digests.wf(),
                bytes == old(buf)@,
                decode_entries(buf@, (count - i) as nat, member_digests@) == decode_digest(bytes),
            decreases count - i,
        {
            let member_id = match MemberId::deserialize(buf) {
                Ok(member_id) => member_id,
                Err(error) => {
                    return Err(error);
                },
            };
            let member_digest = match MemberDigest::deserialize(buf) {
                Ok(member_digest) => member_digest,
                Err(error) => {
                    return Err(error);
                },
            };
            member_digests.insert(member_id, member_digest);
            i = i + 1;
        }
        Ok(Digest { member_digests })
    }
}

/// A digest that loses nothing on the wire: its identities do not, and their number fits
/// the two bytes that announce it.
pub open spec fn sendable_digest(digest: Digest) -> bool {
    &&& digest.wf()
    &&& digest.member_digests.entries().len() < 0x1_0000
    &&& forall|i: int|
        0 <= i < digest.member_digests.entries().len() ==> sendable_member_id(
            #[trigger] digest.member_digests.entries()[i].0@,
        )
}

/// A digest entry is read back as it was written.
pub proof fn law_member_digest_round_trip(digest: MemberDigest, rest: Seq<u8>)
    ensures
        decode_member_digest(encode_member_digest(digest) + rest) == (
            Ok::<MemberDigest, DeserializeError>(digest),
            rest,
        ),
{
    let version = encode_u64(digest.max_version);
    assert(encode_member_digest(digest) + rest =~= encode_u64(digest.heartbeat.0) + (version
        + rest));
    law_u64_round_trip(digest.heartbeat.0, version + rest);
    law_u64_round_trip(digest.max_version, rest);
}

/// `digests` with the entries bound in it, one after the other.
spec fn bind_all(
    digests: Map<MemberIdView, MemberDigest>,
    entries: Seq<(MemberId, MemberDigest)>,
) -> Map<MemberIdView, MemberDigest>
    decreases entries.len(),
{
    if entries.len() == 0 {
        digests
    } else {
        bind_all(digests.insert(entries[0].0@, entries[0].1), entries.drop_first())
    }
}

proof fn lemma_bind_all(
    digests: Map<MemberIdView, MemberDigest>,
    entries: Seq<(MemberId, MemberDigest)>,
)
    requires
        entries.len() > 0,
    ensures
        bind_all(digests, entries) == bind_all(digests, entries.drop_last()).insert(
            entries.last().0@,
            entries.last().1,
        ),
    decreases entries.len(),
{
    reveal_with_fuel(bind_all, 2);
    if entries.len() > 1 {
        let next = digests.insert(entries[0].0@, entries[0].1);
        lemma_bind_all(next, entries.drop_first());
        assert(entries.drop_first().drop_last() =~= entries.drop_last().drop_first());
    }
}

proof fn lemma_bind_all_is_map(entries: Seq<(MemberId, MemberDigest)>)
    ensures
        bind_all(Map::empty(), entries) == entries_map(entries),
    decreases entries.len(),
{
    if entries.len() > 0 {
        lemma_bind_all(Map::empty(), entries);
        lemma_bind_all_is_map(entries.drop_last());
    }
}

proof fn lemma_entries_round_trip(
    entries: Seq<(MemberId, MemberDigest)>,
    digests: Map<MemberIdView, MemberDigest>,
    rest: Seq<u8>,
)
    requires
        forall|i: int| 0 <= i < entries.len() ==> sendable_member_id(#[trigger] entries[i].0@),
    ensures
        decode_entries(encode_entries(entries) + rest, entries.len(), digests) == (
            Ok::<Map<MemberIdView, MemberDigest>, DeserializeError>(bind_all(digests, entries)),
            rest,
        ),
    decreases entries.len(),
{
    if entries.len() == 0 {
        assert(encode_entries(entries) + rest =~= rest);
    } else {
        let id = encode_member_id(entries[0].0@);
        let digest = encode_member_digest(entries[0].1);
        let tail = encode_entries(entries.drop_first());
        assert(encode_entries(entries) + rest =~= id + (digest + (tail + rest)));
        law_member_id_round_trip(entries[0].0@, digest + (tail + rest));
        law_member_digest_round_trip(entries[0].1, tail + rest);
        assert forall|i: int| 0 <= i < entries.drop_first().len() implies sendable_member_id(
            #[trigger] entries.drop_first()[i].0@,
        ) by {
            assert(entries.drop_first()[i] == entries[i + 1]);
        }
        lemma_entries_round_trip(
            entries.drop_first(),
            digests.insert(entries[0].0@, entries[0].1),
            rest,
        );
    }
}

/// A digest that loses nothing on the wire is read back as it was written.
pub proof fn law_digest_round_trip(digest: Digest, rest: Seq<u8>)
    requires
        sendable_digest(digest),
    ensures
        decode_digest(digest.encoding() + rest) == (
            Ok::<Map<MemberIdView, MemberDigest>, DeserializeError>(digest@),
            rest,
        ),
{
    let entries = digest.member_digests.entries();
    let count = entries.len() as u16;
    assert(digest.encoding() + rest =~= encode_u16(count) + (encode_entries(entries) + rest));
    law_u16_round_trip(count, encode_entries(entries) + rest);
    lemma_entries_round_trip(entries, Map::empty(), rest);
    lemma_bind_all_is_map(entries);
}

/// A digest is the number of its entries, of which sixteen bits are kept, the lower byte first,
/// and the entries; an entry is the identity, the heartbeat, and the version.
pub proof fn law_digest_bytes(
    entries: Seq<(MemberId, MemberDigest)>,
    member_id: MemberId,
    digest: MemberDigest,
)
    ensures
        encode_digest(entries).len() >= 2,
        encode_digest(entries)[0] == entries.len() % 256,
        encode_digest(entries)[1] == (entries.len() / 256) % 256,
        encode_digest(entries).skip(2) == encode_entries(entries),
        encode_entries(Seq::empty()) == Seq::<u8>::empty(),
        encode_entries(entries.push((member_id, digest))) == encode_entries(entries) + (
        encode_member_id(member_id@) + encode_u64(digest.heartbeat.0) + encode_u64(
            digest.max_version,
        )),
{
    law_u16_bytes((entries.len() % 0x1_0000) as u16);
    assert(encode_digest(entries).skip(2) =~= encode_entries(entries));
    lemma_encode_entries_push(entries, member_id, digest);
}

proof fn lemma_encode_entries_push(
    entries: Seq<(MemberId, MemberDigest)>,
    member_id: MemberId,
    digest: MemberDigest,
)
    ensures
        encode_entries(entries.push((member_id, digest))) == encode_entries(entries) + (
        encode_member_id(member_id@) + encode_u64(digest.heartbeat.0) + encode_u64(
            digest.max_version,
        )),
    decreases entries.len(),
{
    let longer = entries.push((member_id, digest));
    let last = encode_member_id(member_id@) + encode_u64(digest.heartbeat.0) + encode_u64(
        digest.max_version,
    );
    reveal_with_fuel(encode_entries, 2);
    if entries.len() == 0 {
        assert(longer.drop_first() =~= Seq::empty());
        assert(encode_entries(longer) =~= encode_entries(entries) + last);
    } else {
        let first = encode_member_id(entries[0].0@) + encode_member_digest(entries[0].1);
        let rest = entries.drop_first();
        lemma_encode_entries_push(rest, member_id, digest);
        assert(longer.drop_first() =~= rest.push((member_id, digest)));
        assert(first + (encode_entries(rest) + last) =~= first + encode_entries(rest) + last);
    }
}

proof fn lemma_entries_are_read(
    entries: Seq<(MemberId, MemberDigest)>,
    count: nat,
    digests: Map<MemberIdView, MemberDigest>,
    rest: Seq<u8>,
)
    requires
        entries.len() <= count,
        forall|i: int| 0 <= i < entries.len() ==> sendable_member_id(#[trigger] entries[i].0@),
    ensures
        decode_entries(encode_entries(entries) + rest, count, digests) == decode_entries(
            rest,
            (count - entries.len()) as nat,
            bind_all(digests, entries),
        ),
    decreases entries.len(),
{
    if entries.len() == 0 {
        assert(encode_entries(entries) + rest =~= rest);
    } else {
        let id = encode_member_id(entries[0].0@);
        let digest = encode_member_digest(entries[0].1);
        let tail = encode_entries(entries.drop_first());
        assert(encode_entries(entries) + rest =~= id + (digest + (tail + rest)));
        law_member_id_round_trip(entries[0].0@, digest + (tail + rest));
        law_member_digest_round_trip(entries[0].1, tail + rest);
        assert forall|i: int| 0 <= i < entries.drop_first().len() implies sendable_member_id(
            #[trigger] entries.drop_first()[i].0@,
        ) by {
            assert(entries.drop_first()[i] == entries[i + 1]);
        }
        lemma_entries_are_read(
            entries.drop_first(),
            (count - 1) as nat,
            digests.insert(entries[0].0@, entries[0].1),
            rest,
        );
    }
}

proof fn lemma_bound(entries: Seq<(MemberId, MemberDigest)>, i: int)
    requires
        0 <= i < entries.len(),
        forall|j: int| i < j < entries.len() ==> (#[trigger] entries[j]).0@ != entries[i].0@,
    ensures
        entries_map(entries).contains_key(entries[i].0@),
        entries_map(entries)[entries[i].0@] == entries[i].1,
    decreases entries.len(),
{
    let front = entries.drop_last();
    let n = entries.len() - 1;
    if i < n {
        assert(front[i] == entries[i]);
        assert(entries[n].0@ != entries[i].0@);
        assert forall|j: int| i < j < front.len() implies (#[trigger] front[j]).0@
            != front[i].0@ by {
            assert(entries[j].0@ != entries[i].0@);
        }
        lemma_bound(front, i);
    }
}

proof fn lemma_not_bound(entries: Seq<(MemberId, MemberDigest)>, id: MemberIdView)
    requires
        forall|j: int| 0 <= j < entries.len() ==> (#[trigger] entries[j]).0@ != id,
    ensures
        !entries_map(entries).contains_key(id),
    decreases entries.len(),
{
    if entries.len() > 0 {
        let front = entries.drop_last();
        assert forall|j: int| 0 <= j < front.len() implies (#[trigger] front[j]).0@ != id by {
            assert(entries[j].0@ != id);
        }
        lemma_not_bound(front, id);
        assert(entries[entries.len() - 1].0@ != id);
    }
}

/// As many entries are read as are announced. Of those of one member the last one stays, and
/// there are no others.
pub proof fn law_announced_entries_are_read(
    entries: Seq<(MemberId, MemberDigest)>,
    rest: Seq<u8>,
    id: MemberIdView,
)
    requires
        entries.len() < 0x1_0000,
        forall|i: int| 0 <= i < entries.len() ==> sendable_member_id(#[trigger] entries[i].0@),
    ensures
        decode_digest(encode_digest(entries) + rest).1 == rest,
        decode_digest(encode_digest(entries) + rest).0 matches Ok(digest) && {
            &&& digest.contains_key(id) ==> exists|i: int|
                0 <= i < entries.len() && (#[trigger] entries[i]).0@ == id
            &&& forall|i: int|
                0 <= i < entries.len() && (#[trigger] entries[i]).0@ == id && (forall|j: int|
                    i < j < entries.len() ==> (#[trigger] entries[j]).0@ != id)
                    ==> digest.contains_key(id) && digest[id] == entries[i].1
        },
{
    let count = entries.len() as u16;
    assert(encode_digest(entries) + rest =~= encode_u16(count) + (encode_entries(entries) + rest));
    law_u16_round_trip(count, encode_entries(entries) + rest);
    lemma_entries_are_read(entries, entries.len(), Map::empty(), rest);
    lemma_bind_all_is_map(entries);
    if forall|j: int| 0 <= j < entries.len() ==> (#[trigger] entries[j]).0@ != id {
        lemma_not_bound(entries, id);
    }
    assert forall|i: int|
        0 <= i < entries.len() && (#[trigger] entries[i]).0@ == id && (forall|j: int|
            i < j < entries.len() ==> (#[trigger] entries[j]).0@ != id) implies entries_map(
        entries,
    ).contains_key(id) && entries_map(entries)[id] == entries[i].1 by {
        lemma_bound(entries, i);
    }
}

/// A digest is refused if the number of its entries is missing, or for the first entry of the
/// announced ones that is refused or breaks off.
pub proof fn law_broken_digests_are_refused(
    bytes: Seq<u8>,
    entries: Seq<(MemberId, MemberDigest)>,
    count: u16,
    rest: Seq<u8>,
)
    requires
        entries.len() < count,
        forall|i: int| 0 <= i < entries.len() ==> sendable_member_id(#[trigger] entries[i].0@),
    ensures
        bytes.len() < 2 ==> decode_digest(bytes) == (
            Err::<Map<MemberIdView, MemberDigest>, DeserializeError>(
                DeserializeError::BufferTooShort,
            ),
            bytes,
        ),
        match decode_member_id(rest) {
            (Err(error), after) => decode_digest(
                encode_u16(count) + (encode_entries(entries) + rest),
            ) == (Err::<Map<MemberIdView, MemberDigest>, DeserializeError>(error), after),
            (Ok(_), after) => after.len() < 16 ==> decode_digest(
                encode_u16(count) + (encode_entries(entries) + rest),
            ).0 == Err::<Map<MemberIdView, MemberDigest>, DeserializeError>(
                DeserializeError::BufferTooShort,
            ),
        },
{
    law_missing_bytes_are_refused(bytes);
    law_u16_round_trip(count, encode_entries(entries) + rest);
    lemma_entries_are_read(entries, count as nat, Map::empty(), rest);
    if let (Ok(_), after) = decode_member_id(rest) {
        law_missing_bytes_are_refused(after);
        law_numbers_are_read(after);
        law_missing_bytes_are_refused(after.skip(8));
    }
}

} // verus!
