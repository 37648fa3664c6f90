//! The wire format: a compact binary encoding whose point is to make it possible to
//! truncate a delta payload to a given mtu.
//!
//! Numbers are little-endian. A string is its length in bytes as a `u16`, then its
//! UTF-8 bytes.
use crate::text::{
    arc_str, byte_string_chars, byte_string_from, byte_string_str, decimal, decimal_string,
    str_from_utf8, utf8_error_len, valid_front,
};
use crate::types::{Heartbeat, IpAddr, MemberId, MemberIdView, SocketAddr};
use bytestring::ByteString;
use std::sync::Arc;
use vstd::arithmetic::div_mod::lemma_div_denominator;
use vstd::arithmetic::power::{lemma_pow0, lemma_pow1, lemma_pow_adds, lemma_pow_positive, pow};
use vstd::prelude::*;
use vstd::slice::slice_subrange;
use vstd::std_specs::cmp::*;
use vstd::string::StringExecFns;
use vstd::utf8::{decode_utf8, decode_utf8_encode_utf8, encode_utf8, valid_utf8};

verus! {

/// Why bytes could not be read back.
#[derive(Debug, Clone, Copy, PartialEq, Eq, Structural)]
pub enum DeserializeError {
    /// The buffer ends before a value of fixed size does.
    BufferTooShort,
    /// The buffer holds fewer bytes than a string's length announces.
    StringTooShort { str_len: usize, buf_len: usize },
    /// A string's bytes are not valid UTF-8: only the first `valid_up_to` are, and then come
    /// `error_len` that are not, or the bytes break off.
    InvalidUtf8 { valid_up_to: usize, error_len: Option<usize> },
    /// The IP version byte is neither `4` nor `6`.
    InvalidIpVersion(u8),
    /// A delta op starts with a tag that is neither a member's nor a key-value's.
    UnknownDeltaTag(u8),
    /// A key-value op comes before any member op.
    KeyValueWithoutMember,
    /// A key-value op does not raise its member's version.
    VersionNotIncreasing,
    /// The buffer is too small for the magic number and the protocol version.
    HeaderTooShort,
    /// The datagram does not start with the protocol's magic number.
    InvalidMagicNumber,
    /// The protocol version is unknown.
    InvalidProtocolVersion,
    /// The message type is missing or unknown.
    InvalidMessageType,
}

impl DeserializeError {
    /// What went wrong, in words.
    pub open spec fn text(self) -> Seq<char> {
        match self {
            DeserializeError::BufferTooShort => "buffer too short"@,
            DeserializeError::StringTooShort { str_len, buf_len } => {
                "failed to deserialize string, buffer too short (str_len="@ + decimal(
                    str_len as nat,
                ) + ", buf_len="@ + decimal(buf_len as nat) + ")"@
            },
            DeserializeError::InvalidUtf8 { valid_up_to, error_len: Some(len) } => {
                "invalid utf-8 sequence of "@ + decimal(len as nat) + " bytes from index "@
                    + decimal(valid_up_to as nat)
            },
            DeserializeError::InvalidUtf8 { valid_up_to, error_len: None } => {
                "incomplete utf-8 byte sequence from index "@ + decimal(valid_up_to as nat)
            },
            DeserializeError::InvalidIpVersion(version) => {
                "invalid IP version byte: expected `4` or `6`, got `"@ + decimal(version as nat)
                    + "`"@
            },
            DeserializeError::UnknownDeltaTag(tag) => "unknown delta op tag: "@ + decimal(
                tag as nat,
            ),
            DeserializeError::KeyValueWithoutMember => {
                "received a key-value op without a preceding member op"@
            },
            DeserializeError::VersionNotIncreasing => "kv version should be strictly increasing"@,
            DeserializeError::HeaderTooShort => {
                "buffer too small for the magic number and protocol version"@
            },
            DeserializeError::InvalidMagicNumber => "invalid tchatche magic number"@,
            DeserializeError::InvalidProtocolVersion => "invalid protocol version"@,
            DeserializeError::InvalidMessageType => "invalid message type"@,
        }
    }

    /// What went wrong, in words.
    pub fn message(&self) -> (message: String)
        ensures
            message@ == self.text(),
    {
        match *self {
            DeserializeError::BufferTooShort => "buffer too short".to_owned(),
            DeserializeError::StringTooShort { str_len, buf_len } => {
                let mut message: String =
                    "failed to deserialize string, buffer too short (str_len=".to_owned();
                message.append(decimal_string(str_len as u64).as_str());
                message.append(", buf_len=");
                message.append(decimal_string(buf_len as u64).as_str());
                message.append(")");
                message
            },
            DeserializeError::InvalidUtf8 { valid_up_to, error_len: Some(len) } => {
                let mut message: String = "invalid utf-8 sequence of ".to_owned();
                message.append(decimal_string(len as u64).as_str());
                message.append(" bytes from index ");
                message.append(decimal_string(valid_up_to as u64).as_str());
                message
            },
            DeserializeError::InvalidUtf8 { valid_up_to, error_len: None } => {
                let mut message: String = "incomplete utf-8 byte sequence from index ".to_owned();
                message.append(decimal_string(valid_up_to as u64).as_str());
                message
            },
            DeserializeError::InvalidIpVersion(version) => {
                let mut message: String =
                    "invalid IP version byte: expected `4` or `6`, got `".to_owned();
                message.append(decimal_string(version as u64).as_str());
                message.append("`");
                message
            },
            DeserializeError::UnknownDeltaTag(tag) => {
                let mut message: String = "unknown delta op tag: ".to_owned();
                message.append(decimal_string(tag as u64).as_str());
                message
            },
            DeserializeError::KeyValueWithoutMember => {
                "received a key-value op without a preceding member op".to_owned()
            },
            DeserializeError::VersionNotIncreasing => {
                "kv version should be strictly increasing".to_owned()
            },
            DeserializeError::HeaderTooShort => {
                "buffer too small for the magic number and protocol version".to_owned()
            },
            DeserializeError::InvalidMagicNumber => "invalid tchatche magic number".to_owned(),
            DeserializeError::InvalidProtocolVersion => "invalid protocol version".to_owned(),
            DeserializeError::InvalidMessageType => "invalid message type".to_owned(),
        }
    }
}

/// What reading a value of type `M` yields, and the bytes left unread.
pub type Decoded<M> = (Result<M, DeserializeError>, Seq<u8>);

/// A length as a `usize`, saturating at the largest one.
pub open spec fn saturated(len: nat) -> usize {
    if len <= usize::MAX {
        len as usize
    } else {
        usize::MAX
    }
}

/// Trait to serialize messages.
pub trait Serializable {
    /// The bytes that stand for this value.
    spec fn encoding(&self) -> Seq<u8>;

    /// Appends the bytes that stand for this value.
    fn serialize(&self, buf: &mut Vec<u8>)
        ensures
            final(buf)@ == old(buf)@ + self.encoding(),
    ;

    /// The bytes that stand for this value.
    fn serialize_to_vec(&self) -> (buf: Vec<u8>)
        ensures
            buf@ == self.encoding(),
    {
        let mut buf: Vec<u8> = Vec::new();
        self.serialize(&mut buf);
        assert(buf@ =~= self.encoding());
        buf
    }

    /// The number of bytes that [`Serializable::serialize`] appends.
    fn serialized_len(&self) -> (len: usize)
        ensures
            len == saturated(self.encoding().len()),
    ;
}

/// Trait to deserialize messages.
pub trait Deserializable: Sized {
    /// What a value means.
    type Model;

    /// The meaning of this value.
    spec fn model(&self) -> Self::Model;

    /// Whether this value upholds the invariants of its type.
    spec fn well_formed(&self) -> bool;

    /// What is read from the front of `bytes`, and what is left of them.
    spec fn decode(bytes: Seq<u8>) -> Decoded<Self::Model>;

    /// Reads a value off the front of `buf`.
    fn deserialize(buf: &mut &[u8]) -> (result: Result<Self, DeserializeError>)
        ensures
            final(buf)@ == Self::decode(old(buf)@).1,
            match result {
                Ok(value) => value.well_formed() && Self::decode(old(buf)@).0 == Ok::<
                    Self::Model,
                    DeserializeError,
                >(value.model()),
                Err(error) => Self::decode(old(buf)@).0 == Err::<Self::Model, DeserializeError>(
                    error,
                ),
            },
    ;
}

/// Appends `bytes` to `buf`.
pub(crate) fn append_bytes(buf: &mut Vec<u8>, bytes: &[u8])
    ensures
        final(buf)@ == old(buf)@ + bytes@,
{
    let ghost before = buf@;
    buf.extend_from_slice(bytes);
    assert(buf@ =~= before + bytes@);
}

/// Drops the first `n` bytes of `buf`.
pub(crate) fn consume(buf: &mut &[u8], n: usize)
    requires
        n <= old(buf)@.len(),
    ensures
        final(buf)@ == old(buf)@.skip(n as int),
{
    let bytes: &[u8] = *buf;
    *buf = slice_subrange(bytes, n, bytes.len());
    assert(buf@ =~= bytes@.skip(n as int));
}

/// Adds two lengths, saturating.
pub(crate) fn add_lens(a: usize, b: usize, Ghost(la): Ghost<nat>, Ghost(lb): Ghost<nat>) -> (sum: usize)
    requires
        a == saturated(la),
        b == saturated(lb),
    ensures
        sum == saturated(la + lb),
{
    a.saturating_add(b)
}

// ---------------------------------------------------------------------------
// Fixed-size values

/// `count` bytes off the front.
pub open spec fn decode_bytes(bytes: Seq<u8>, count: nat) -> Decoded<Seq<u8>> {
    if bytes.len() < count {
        (Err(DeserializeError::BufferTooShort), bytes)
    } else {
        (Ok(bytes.take(count as int)), bytes.skip(count as int))
    }
}

/// The `count` little-endian bytes of `x`.
pub open spec fn le_bytes(x: nat, count: nat) -> Seq<u8>
    decreases count,
{
    if count == 0 {
        Seq::empty()
    } else {
        seq![(x % 256) as u8] + le_bytes(x / 256, (count - 1) as nat)
    }
}

/// The number whose little-endian bytes these are.
pub open spec fn le_value(bytes: Seq<u8>) -> nat
    decreases bytes.len(),
{
    if bytes.len() == 0 {
        0
    } else {
        bytes[0] as nat + 256 * le_value(bytes.drop_first())
    }
}

/// How many numbers `count` bytes can tell apart.
pub open spec fn byte_range(count: nat) -> nat
    decreases count,
{
    if count == 0 {
        1
    } else {
        256 * byte_range((count - 1) as nat)
    }
}

pub proof fn lemma_le_bytes(x: nat, count: nat)
    requires
        x < byte_range(count),
    ensures
        le_bytes(x, count).len() == count,
        le_value(le_bytes(x, count)) == x,
    decreases count,
{
    if count > 0 {
        let rest = le_bytes(x / 256, (count - 1) as nat);
        lemma_le_bytes(x / 256, (count - 1) as nat);
        assert(le_bytes(x, count).drop_first() =~= rest);
    }
}

pub proof fn lemma_le_bytes_len(x: nat, count: nat)
    ensures
        le_bytes(x, count).len() == count,
    decreases count,
{
    if count > 0 {
        lemma_le_bytes_len(x / 256, (count - 1) as nat);
    }
}

pub proof fn lemma_le_value_bound(bytes: Seq<u8>)
    ensures
        le_value(bytes) < byte_range(bytes.len()),
    decreases bytes.len(),
{
    if bytes.len() > 0 {
        lemma_le_value_bound(bytes.drop_first());
    }
}

pub proof fn lemma_byte_ranges()
    ensures
        byte_range(2) == 0x1_0000,
        byte_range(8) == 0x1_0000_0000_0000_0000,
{
    reveal_with_fuel(byte_range, 9);
}

/// Appends the `count` little-endian bytes of `x`.
fn append_le(buf: &mut Vec<u8>, x: u64, count: usize)
    ensures
        final(buf)@ == old(buf)@ + le_bytes(x as nat, count as nat),
{
    let ghost before = buf@;
    let mut rest: u64 = x;
    let mut i: usize = 0;
    assert(buf@ + le_bytes(x as nat, count as nat) =~= before + le_bytes(x as nat, count as nat));
    while i < count
        invariant
            i <= count,
            buf@ + le_bytes(rest as nat, (count - i) as nat) == before + le_bytes(
                x as nat,
                count as nat,
            ),
        decreases count - i,
    {
        proof {
            assert(buf@.push((rest % 256) as u8) + le_bytes(
                (rest / 256) as nat,
                (count - i - 1) as nat,
            ) =~= buf@ + le_bytes(rest as nat, (count - i) as nat));
        }
        buf.push((rest % 256) as u8);
        rest = rest / 256;
        i = i + 1;
    }
    assert(buf@ =~= buf@ + le_bytes(rest as nat, 0));
}

/// The number whose little-endian bytes these are; at most eight of them.
fn read_le(bytes: &[u8]) -> (value: u64)
    requires
        bytes@.len() <= 8,
    ensures
        value == le_value(bytes@),
{
    let mut value: u64 = 0;
    let mut i: usize = bytes.len();
    assert(bytes@.skip(i as int) =~= Seq::<u8>::empty());
    while i > 0
        invariant
            i <= bytes@.len() <= 8,
            value == le_value(bytes@.skip(i as int)),
        decreases i,
    {
        proof {
            let tail = bytes@.skip(i as int);
            let longer = bytes@.skip(i - 1);
            assert(longer.drop_first() =~= tail);
            lemma_le_value_bound(longer);
            assert(byte_range(longer.len()) <= byte_range(8)) by {
                lemma_byte_range_grows(longer.len(), 8);
            }
            lemma_byte_ranges();
        }
        i = i - 1;
        value = bytes[i] as u64 + 256 * value;
    }
    assert(bytes@.skip(0) =~= bytes@);
    value
}

proof fn lemma_byte_range_grows(a: nat, b: nat)
    requires
        a <= b,
    ensures
        byte_range(a) <= byte_range(b),
        byte_range(a) >= 1,
    decreases b,
{
    if b > 0 {
        if a == b {
            lemma_byte_range_grows((a - 1) as nat, (b - 1) as nat);
        } else {
            lemma_byte_range_grows(a, (b - 1) as nat);
        }
    }
}

pub open spec fn encode_u16(x: u16) -> Seq<u8> {
    le_bytes(x as nat, 2)
}

pub open spec fn encode_u64(x: u64) -> Seq<u8> {
    le_bytes(x as nat, 8)
}

pub open spec fn decode_u8(bytes: Seq<u8>) -> Decoded<u8> {
    match decode_bytes(bytes, 1) {
        (Ok(front), rest) => (Ok(front[0]), rest),
        (Err(error), rest) => (Err(error), rest),
    }
}

pub open spec fn decode_u16(bytes: Seq<u8>) -> Decoded<u16> {
    match decode_bytes(bytes, 2) {
        (Ok(front), rest) => (Ok(le_value(front) as u16), rest),
        (Err(error), rest) => (Err(error), rest),
    }
}

pub open spec fn decode_u64(bytes: Seq<u8>) -> Decoded<u64> {
    match decode_bytes(bytes, 8) {
        (Ok(front), rest) => (Ok(le_value(front) as u64), rest),
        (Err(error), rest) => (Err(error), rest),
    }
}

/// Any byte but zero is true.
pub open spec fn decode_bool(bytes: Seq<u8>) -> Decoded<bool> {
    match decode_u8(bytes) {
        (Ok(byte), rest) => (Ok(byte != 0), rest),
        (Err(error), rest) => (Err(error), rest),
    }
}

impl<const N: usize> Serializable for [u8; N] {
    open spec fn encoding(&self) -> Seq<u8> {
        self@
    }

    fn serialize(&self, buf: &mut Vec<u8>) {
        let ghost before = buf@;
        append_bytes(buf, self.as_slice());
        assert(buf@ == before + self.encoding());
    }

    fn serialized_len(&self) -> (len: usize) {
        N
    }
}

impl<const N: usize> Deserializable for [u8; N] {
    type Model = Seq<u8>;

    open spec fn model(&self) -> Seq<u8> {
        self@
    }

    open spec fn well_formed(&self) -> bool {
        true
    }

    open spec fn decode(bytes: Seq<u8>) -> Decoded<Seq<u8>> {
        decode_bytes(bytes, N as nat)
    }

    fn deserialize(buf: &mut &[u8]) -> (result: Result<Self, DeserializeError>) {
        let bytes: &[u8] = *buf;
        if bytes.len() < N {
            return Err(DeserializeError::BufferTooShort);
        }
        let mut value: [u8; N] = [0u8; N];
        let mut i: usize = 0;
        while i < N
            invariant
                i <= N <= bytes@.len(),
                value@.len() == N,
                forall|j: int| 0 <= j < i ==> value@[j] == bytes@[j],
            decreases N - i,
        {
            value[i] = bytes[i];
            i = i + 1;
        }
        consume(buf, N);
        assert(value@ =~= bytes@.take(N as int));
        Ok(value)
    }
}

impl Serializable for u8 {
    open spec fn encoding(&self) -> Seq<u8> {
        seq![*self]
    }

    fn serialize(&self, buf: &mut Vec<u8>) {
        let ghost before = buf@;
        buf.push(*self);
        assert(buf@ =~= before + self.encoding());
    }

    fn serialized_len(&self) -> (len: usize) {
        1
    }
}

impl Deserializable for u8 {
    type Model = u8;

    open spec fn model(&self) -> u8 {
        *self
    }

    open spec fn well_formed(&self) -> bool {
        true
    }

    open spec fn decode(bytes: Seq<u8>) -> Decoded<u8> {
        decode_u8(bytes)
    }

    fn deserialize(buf: &mut &[u8]) -> (result: Result<Self, DeserializeError>) {
        match <[u8; 1] as Deserializable>::deserialize(buf) {
            Ok(byte) => Ok(byte[0]),
            Err(error) => Err(error),
        }
    }
}

impl Serializable for u16 {
    open spec fn encoding(&self) -> Seq<u8> {
        encode_u16(*self)
    }

    fn serialize(&self, buf: &mut Vec<u8>) {
        let ghost before = buf@;
        append_le(buf, *self as u64, 2);
        assert(buf@ == before + self.encoding());
    }

    fn serialized_len(&self) -> (len: usize) {
        proof {
            lemma_le_bytes_len(*self as nat, 2);
        }
        2
    }
}

impl Deserializable for u16 {
    type Model = u16;

    open spec fn model(&self) -> u16 {
        *self
    }

    open spec fn well_formed(&self) -> bool {
        true
    }

    open spec fn decode(bytes: Seq<u8>) -> Decoded<u16> {
        decode_u16(bytes)
    }

    fn deserialize(buf: &mut &[u8]) -> (result: Result<Self, DeserializeError>) {
        match <[u8; 2] as Deserializable>::deserialize(buf) {
            Ok(bytes) => {
                proof {
                    lemma_le_value_bound(bytes@);
                    lemma_byte_ranges();
                }
                Ok(read_le(bytes.as_slice()) as u16)
            },
            Err(error) => Err(error),
        }
    }
}

impl Serializable for u64 {
    open spec fn encoding(&self) -> Seq<u8> {
        encode_u64(*self)
    }

    fn serialize(&self, buf: &mut Vec<u8>) {
        let ghost before = buf@;
        append_le(buf, *self, 8);
        assert(buf@ == before + self.encoding());
    }

    fn serialized_len(&self) -> (len: usize) {
        proof {
            lemma_le_bytes_len(*self as nat, 8);
        }
        8
    }
}

impl Deserializable for u64 {
    type Model = u64;

    open spec fn model(&self) -> u64 {
        *self
    }

    open spec fn well_formed(&self) -> bool {
        true
    }

    open spec fn decode(bytes: Seq<u8>) -> Decoded<u64> {
        decode_u64(bytes)
    }

    fn deserialize(buf: &mut &[u8]) -> (result: Result<Self, DeserializeError>) {
        match <[u8; 8] as Deserializable>::deserialize(buf) {
            Ok(bytes) => Ok(read_le(bytes.as_slice())),
            Err(error) => Err(error),
        }
    }
}

impl Serializable for bool {
    open spec fn encoding(&self) -> Seq<u8> {
        seq![if *self { 1u8 } else { 0u8 }]
    }

    fn serialize(&self, buf: &mut Vec<u8>) {
        let ghost before = buf@;
        let byte: u8 = if *self {
            1
        } else {
            0
        };
        byte.serialize(buf);
        assert(buf@ == before + self.encoding());
    }

    fn serialized_len(&self) -> (len: usize) {
        1
    }
}

impl Deserializable for bool {
    type Model = bool;

    open spec fn model(&self) -> bool {
        *self
    }

    open spec fn well_formed(&self) -> bool {
        true
    }

    open spec fn decode(bytes: Seq<u8>) -> Decoded<bool> {
        decode_bool(bytes)
    }

    fn deserialize(buf: &mut &[u8]) -> (result: Result<Self, DeserializeError>) {
        match u8::deserialize(buf) {
            Ok(byte) => Ok(byte != 0),
            Err(error) => Err(error),
        }
    }
}

// ---------------------------------------------------------------------------
// Strings

/// A string: the low sixteen bits of its length in bytes, then its UTF-8 bytes.
pub open spec fn encode_str(chars: Seq<char>) -> Seq<u8> {
    encode_u16((encode_utf8(chars).len() % 0x1_0000) as u16) + encode_utf8(chars)
}

pub open spec fn decode_str(bytes: Seq<u8>) -> Decoded<Seq<char>> {
    match decode_u16(bytes) {
        (Ok(len), rest) => {
            if rest.len() < len {
                (
                    Err(
                        DeserializeError::StringTooShort {
                            str_len: len as usize,
                            buf_len: rest.len() as usize,
                        },
                    ),
                    rest,
                )
            } else if !valid_utf8(rest.take(len as int)) {
                let text = rest.take(len as int);
                (
                    Err(
                        DeserializeError::InvalidUtf8 {
                            valid_up_to: valid_front(text, text.len()) as usize,
                            error_len: utf8_error_len(text),
                        },
                    ),
                    rest,
                )
            } else {
                (Ok(decode_utf8(rest.take(len as int))), rest.skip(len as int))
            }
        },
        (Err(error), rest) => (Err(error), rest),
    }
}

impl Serializable for str {
    open spec fn encoding(&self) -> Seq<u8> {
        encode_str(self@)
    }

    fn serialize(&self, buf: &mut Vec<u8>) {
        let ghost before = buf@;
        let bytes = self.as_bytes();
        let len: u16 = (bytes.len() % 0x1_0000) as u16;
        len.serialize(buf);
        append_bytes(buf, bytes);
        assert(buf@ =~= before + self.encoding());
    }

    fn serialized_len(&self) -> (len: usize) {
        let bytes = self.as_bytes();
        proof {
            lemma_le_bytes_len((bytes@.len() % 0x1_0000) as u16 as nat, 2);
        }
        add_lens(2, bytes.len(), Ghost(2), Ghost(bytes@.len()))
    }
}

impl Serializable for String {
    open spec fn encoding(&self) -> Seq<u8> {
        encode_str(self@)
    }

    fn serialize(&self, buf: &mut Vec<u8>) {
        let ghost before = buf@;
        self.as_str().serialize(buf);
        assert(buf@ == before + self.encoding());
    }

    fn serialized_len(&self) -> (len: usize) {
        self.as_str().serialized_len()
    }
}

impl Serializable for ByteString {
    open spec fn encoding(&self) -> Seq<u8> {
        encode_str(byte_string_chars(*self))
    }

    fn serialize(&self, buf: &mut Vec<u8>) {
        let ghost before = buf@;
        byte_string_str(self).serialize(buf);
        assert(buf@ == before + self.encoding());
    }

    fn serialized_len(&self) -> (len: usize) {
        byte_string_str(self).serialized_len()
    }
}

impl Serializable for Arc<str> {
    open spec fn encoding(&self) -> Seq<u8> {
        encode_str((**self)@)
    }

    fn serialize(&self, buf: &mut Vec<u8>) {
        let ghost before = buf@;
        (&**self).serialize(buf);
        assert(buf@ == before + self.encoding());
    }

    fn serialized_len(&self) -> (len: usize) {
        (&**self).serialized_len()
    }
}

/// Reads a string off the front of `buf`, without copying it.
pub fn deserialize_str<'a>(buf: &mut &'a [u8]) -> (result: Result<&'a str, DeserializeError>)
    ensures
        final(buf)@ == decode_str(old(buf)@).1,
        match result {
            Ok(text) => decode_str(old(buf)@).0 == Ok::<Seq<char>, DeserializeError>(text@),
            Err(error) => decode_str(old(buf)@).0 == Err::<Seq<char>, DeserializeError>(error),
        },
{
    let len: usize = match u16::deserialize(buf) {
        Ok(len) => len as usize,
        Err(error) => {
            return Err(error);
        },
    };
    let bytes: &'a [u8] = *buf;
    if bytes.len() < len {
        return Err(DeserializeError::StringTooShort { str_len: len, buf_len: bytes.len() });
    }
    let str_bytes = slice_subrange(bytes, 0, len);
    assert(str_bytes@ =~= bytes@.take(len as int));
    match str_from_utf8(str_bytes) {
        Ok(text) => {
            consume(buf, len);
            Ok(text)
        },
        Err((valid_up_to, error_len)) => Err(
            DeserializeError::InvalidUtf8 { valid_up_to, error_len },
        ),
    }
}

impl Deserializable for String {
    type Model = Seq<char>;

    open spec fn model(&self) -> Seq<char> {
        self@
    }

    open spec fn well_formed(&self) -> bool {
        true
    }

    open spec fn decode(bytes: Seq<u8>) -> Decoded<Seq<char>> {
        decode_str(bytes)
    }

    fn deserialize(buf: &mut &[u8]) -> (result: Result<Self, DeserializeError>) {
        match deserialize_str(buf) {
            Ok(text) => Ok(text.to_owned()),
            Err(error) => Err(error),
        }
    }
}

impl Deserializable for ByteString {
    type Model = Seq<char>;

    open spec fn model(&self) -> Seq<char> {
        byte_string_chars(*self)
    }

    open spec fn well_formed(&self) -> bool {
        true
    }

    open spec fn decode(bytes: Seq<u8>) -> Decoded<Seq<char>> {
        decode_str(bytes)
    }

    /// Copies the bytes out of the (transient) buffer rather than retaining a slice of it
    /// for the value's whole lifetime.
    fn deserialize(buf: &mut &[u8]) -> (result: Result<Self, DeserializeError>) {
        match deserialize_str(buf) {
            Ok(text) => Ok(byte_string_from(text.to_owned())),
            Err(error) => Err(error),
        }
    }
}

impl Deserializable for Arc<str> {
    type Model = Seq<char>;

    open spec fn model(&self) -> Seq<char> {
        (**self)@
    }

    open spec fn well_formed(&self) -> bool {
        true
    }

    open spec fn decode(bytes: Seq<u8>) -> Decoded<Seq<char>> {
        decode_str(bytes)
    }

    fn deserialize(buf: &mut &[u8]) -> (result: Result<Self, DeserializeError>) {
        match deserialize_str(buf) {
            Ok(text) => Ok(arc_str(text)),
            Err(error) => Err(error),
        }
    }
}

// ---------------------------------------------------------------------------
// Addresses

/// The family of an IP address, as one byte.
enum IpVersion {
    V4,
    V6,
}

/// The byte that announces four octets.
pub const IP_V4: u8 = 4;

/// The byte that announces sixteen octets.
pub const IP_V6: u8 = 6;

impl IpVersion {
    fn from_code(code: u8) -> (version: Result<Self, DeserializeError>)
        ensures
            version == (if code == IP_V4 {
                Ok(IpVersion::V4)
            } else if code == IP_V6 {
                Ok(IpVersion::V6)
            } else {
                Err(DeserializeError::InvalidIpVersion(code))
            }),
    {
        if code == IP_V4 {
            Ok(IpVersion::V4)
        } else if code == IP_V6 {
            Ok(IpVersion::V6)
        } else {
            Err(DeserializeError::InvalidIpVersion(code))
        }
    }
}

/// An IP address: the version byte, then the octets.
pub open spec fn encode_ip(ip: IpAddr) -> Seq<u8> {
    match ip {
        IpAddr::V4(octets) => seq![IP_V4] + octets@,
        IpAddr::V6(octets) => seq![IP_V6] + octets@,
    }
}

/// The array of the given octets.
pub open spec fn octets_of<const N: usize>(octets: Seq<u8>) -> [u8; N] {
    choose|array: [u8; N]| array@ == octets
}

pub proof fn lemma_octets_of<const N: usize>(array: [u8; N])
    ensures
        octets_of::<N>(array@) == array,
{
    let chosen = octets_of::<N>(array@);
    assert(chosen@ == array@);
    assert(chosen =~= array);
}

pub open spec fn decode_ip(bytes: Seq<u8>) -> Decoded<IpAddr> {
    match decode_u8(bytes) {
        (Ok(version), rest) => if version == IP_V4 {
            match decode_bytes(rest, 4) {
                (Ok(octets), rest) => (Ok(IpAddr::V4(octets_of::<4>(octets))), rest),
                (Err(error), rest) => (Err(error), rest),
            }
        } else if version == IP_V6 {
            match decode_bytes(rest, 16) {
                (Ok(octets), rest) => (Ok(IpAddr::V6(octets_of::<16>(octets))), rest),
                (Err(error), rest) => (Err(error), rest),
            }
        } else {
            (Err(DeserializeError::InvalidIpVersion(version)), rest)
        },
        (Err(error), rest) => (Err(error), rest),
    }
}

impl Serializable for IpAddr {
    open spec fn encoding(&self) -> Seq<u8> {
        encode_ip(*self)
    }

    fn serialize(&self, buf: &mut Vec<u8>) {
        let ghost before = buf@;
        match self {
            IpAddr::V4(octets) => {
                IP_V4.serialize(buf);
                octets.serialize(buf);
            },
            IpAddr::V6(octets) => {
                IP_V6.serialize(buf);
                octets.serialize(buf);
            },
        }
        assert(buf@ =~= before + self.encoding());
    }

    fn serialized_len(&self) -> (len: usize) {
        match self {
            IpAddr::V4(_) => 1 + 4,
            IpAddr::V6(_) => 1 + 16,
        }
    }
}

impl Deserializable for IpAddr {
    type Model = IpAddr;

    open spec fn model(&self) -> IpAddr {
        *self
    }

    open spec fn well_formed(&self) -> bool {
        true
    }

    open spec fn decode(bytes: Seq<u8>) -> Decoded<IpAddr> {
        decode_ip(bytes)
    }

    fn deserialize(buf: &mut &[u8]) -> (result: Result<Self, DeserializeError>) {
        let version_byte = match u8::deserialize(buf) {
            Ok(byte) => byte,
            Err(error) => {
                return Err(error);
            },
        };
        match IpVersion::from_code(version_byte) {
            Ok(IpVersion::V4) => match <[u8; 4] as Deserializable>::deserialize(buf) {
                Ok(octets) => {
                    proof {
                        lemma_octets_of::<4>(octets);
                    }
                    Ok(IpAddr::V4(octets))
                },
                Err(error) => Err(error),
            },
            Ok(IpVersion::V6) => match <[u8; 16] as Deserializable>::deserialize(buf) {
                Ok(octets) => {
                    proof {
                        lemma_octets_of::<16>(octets);
                    }
                    Ok(IpAddr::V6(octets))
                },
                Err(error) => Err(error),
            },
            Err(error) => Err(error),
        }
    }
}

/// A socket address: the IP address, then the port. Flow information and scope of an
/// IPv6 address are not sent.
pub open spec fn encode_addr(addr: SocketAddr) -> Seq<u8> {
    encode_ip(addr.spec_ip()) + encode_u16(addr.spec_port())
}

pub open spec fn decode_addr(bytes: Seq<u8>) -> Decoded<SocketAddr> {
    match decode_ip(bytes) {
        (Ok(ip), rest) => match decode_u16(rest) {
            (Ok(port), rest) => (Ok(SocketAddr::of(ip, port)), rest),
            (Err(error), rest) => (Err(error), rest),
        },
        (Err(error), rest) => (Err(error), rest),
    }
}

impl Serializable for SocketAddr {
    open spec fn encoding(&self) -> Seq<u8> {
        encode_addr(*self)
    }

    fn serialize(&self, buf: &mut Vec<u8>) {
        let ghost before = buf@;
        self.ip().serialize(buf);
        self.port().serialize(buf);
        assert(buf@ =~= before + self.encoding());
    }

    fn serialized_len(&self) -> (len: usize) {
        let ip = self.ip();
        let port = self.port();
        add_lens(
            ip.serialized_len(),
            port.serialized_len(),
            Ghost(ip.encoding().len()),
            Ghost(port.encoding().len()),
        )
    }
}

impl Deserializable for SocketAddr {
    type Model = SocketAddr;

    open spec fn model(&self) -> SocketAddr {
        *self
    }

    open spec fn well_formed(&self) -> bool {
        true
    }

    open spec fn decode(bytes: Seq<u8>) -> Decoded<SocketAddr> {
        decode_addr(bytes)
    }

    fn deserialize(buf: &mut &[u8]) -> (result: Result<Self, DeserializeError>) {
        let ip = match IpAddr::deserialize(buf) {
            Ok(ip) => ip,
            Err(error) => {
                return Err(error);
            },
        };
        match u16::deserialize(buf) {
            Ok(port) => Ok(SocketAddr::new(ip, port)),
            Err(error) => Err(error),
        }
    }
}

// ---------------------------------------------------------------------------
// Members

/// A member's identity: the identifier, the incarnation, the gossip address.
pub open spec fn encode_member_id(member_id: MemberIdView) -> Seq<u8> {
    encode_str(member_id.id) + encode_u64(member_id.incarnation) + encode_addr(
        member_id.gossip_addr,
    )
}

pub open spec fn decode_member_id(bytes: Seq<u8>) -> Decoded<MemberIdView> {
    match decode_str(bytes) {
        (Ok(id), rest) => match decode_u64(rest) {
            (Ok(incarnation), rest) => match decode_addr(rest) {
                (Ok(gossip_addr), rest) => (
                    Ok(MemberIdView { id, incarnation, gossip_addr }),
                    rest,
                ),
                (Err(error), rest) => (Err(error), rest),
            },
            (Err(error), rest) => (Err(error), rest),
        },
        (Err(error), rest) => (Err(error), rest),
    }
}

impl Serializable for MemberId {
    open spec fn encoding(&self) -> Seq<u8> {
        encode_member_id(self@)
    }

    fn serialize(&self, buf: &mut Vec<u8>) {
        let ghost before = buf@;
        self.id.serialize(buf);
        self.incarnation.serialize(buf);
        self.gossip_addr.serialize(buf);
        assert(buf@ =~= before + self.encoding());
    }

    fn serialized_len(&self) -> (len: usize) {
        let ghost id = self.id.encoding().len();
        let ghost incarnation = self.incarnation.encoding().len();
        let front = add_lens(
            self.id.serialized_len(),
            self.incarnation.serialized_len(),
            Ghost(id),
            Ghost(incarnation),
        );
        add_lens(
            front,
            self.gossip_addr.serialized_len(),
            Ghost(id + incarnation),
            Ghost(self.gossip_addr.encoding().len()),
        )
    }
}

impl Deserializable for MemberId {
    type Model = MemberIdView;

    open spec fn model(&self) -> MemberIdView {
        self@
    }

    open spec fn well_formed(&self) -> bool {
        true
    }

    open spec fn decode(bytes: Seq<u8>) -> Decoded<MemberIdView> {
        decode_member_id(bytes)
    }

    fn deserialize(buf: &mut &[u8]) -> (result: Result<Self, DeserializeError>) {
        let id = match <Arc<str> as Deserializable>::deserialize(buf) {
            Ok(id) => id,
            Err(error) => {
                return Err(error);
            },
        };
        let incarnation = match u64::deserialize(buf) {
            Ok(incarnation) => incarnation,
            Err(error) => {
                return Err(error);
            },
        };
        match SocketAddr::deserialize(buf) {
            Ok(gossip_addr) => Ok(MemberId { id, incarnation, gossip_addr }),
            Err(error) => Err(error),
        }
    }
}

impl Serializable for Heartbeat {
    open spec fn encoding(&self) -> Seq<u8> {
        encode_u64(self.0)
    }

    fn serialize(&self, buf: &mut Vec<u8>) {
        let ghost before = buf@;
        self.0.serialize(buf);
        assert(buf@ == before + self.encoding());
    }

    fn serialized_len(&self) -> (len: usize) {
        self.0.serialized_len()
    }
}

impl Deserializable for Heartbeat {
    type Model = Heartbeat;

    open spec fn model(&self) -> Heartbeat {
        *self
    }

    open spec fn well_formed(&self) -> bool {
        true
    }

    open spec fn decode(bytes: Seq<u8>) -> Decoded<Heartbeat> {
        match decode_u64(bytes) {
            (Ok(beats), rest) => (Ok(Heartbeat(beats)), rest),
            (Err(error), rest) => (Err(error), rest),
        }
    }

    fn deserialize(buf: &mut &[u8]) -> (result: Result<Self, DeserializeError>) {
        match u64::deserialize(buf) {
            Ok(beats) => Ok(Heartbeat(beats)),
            Err(error) => Err(error),
        }
    }
}

// ---------------------------------------------------------------------------
// Reading back what was written

/// A string whose length fits the two bytes that announce it.
pub open spec fn sendable_str(chars: Seq<char>) -> bool {
    encode_utf8(chars).len() < 0x1_0000
}

/// An address that loses nothing on the wire.
pub open spec fn sendable_addr(addr: SocketAddr) -> bool {
    addr matches SocketAddr::V6 { flowinfo, scope_id, .. } ==> flowinfo == 0 && scope_id == 0
}

/// An identity that loses nothing on the wire.
pub open spec fn sendable_member_id(member_id: MemberIdView) -> bool {
    sendable_str(member_id.id) && sendable_addr(member_id.gossip_addr)
}

/// Bytes that were written first are read first, and nothing behind them is touched.
pub proof fn law_bytes_round_trip(front: Seq<u8>, rest: Seq<u8>)
    ensures
        decode_bytes(front + rest, front.len()) == (
            Ok::<Seq<u8>, DeserializeError>(front),
            rest,
        ),
{
    assert((front + rest).take(front.len() as int) =~= front);
    assert((front + rest).skip(front.len() as int) =~= rest);
}

/// A byte is read back as it was written.
pub proof fn law_u8_round_trip(x: u8, rest: Seq<u8>)
    ensures
        decode_u8(x.encoding() + rest) == (Ok::<u8, DeserializeError>(x), rest),
{
    law_bytes_round_trip(seq![x], rest);
}

/// A `u16` is read back as it was written.
pub proof fn law_u16_round_trip(x: u16, rest: Seq<u8>)
    ensures
        decode_u16(encode_u16(x) + rest) == (Ok::<u16, DeserializeError>(x), rest),
{
    lemma_byte_ranges();
    lemma_le_bytes(x as nat, 2);
    law_bytes_round_trip(encode_u16(x), rest);
}

/// A `u64` is read back as it was written.
pub proof fn law_u64_round_trip(x: u64, rest: Seq<u8>)
    ensures
        decode_u64(encode_u64(x) + rest) == (Ok::<u64, DeserializeError>(x), rest),
{
    lemma_byte_ranges();
    lemma_le_bytes(x as nat, 8);
    law_bytes_round_trip(encode_u64(x), rest);
}

/// A `bool` is read back as it was written.
pub proof fn law_bool_round_trip(x: bool, rest: Seq<u8>)
    ensures
        decode_bool(x.encoding() + rest) == (Ok::<bool, DeserializeError>(x), rest),
{
    law_u8_round_trip(if x { 1u8 } else { 0u8 }, rest);
}

/// A heartbeat is read back as it was written.
pub proof fn law_heartbeat_round_trip(x: Heartbeat, rest: Seq<u8>)
    ensures
        Heartbeat::decode(x.encoding() + rest) == (Ok::<Heartbeat, DeserializeError>(x), rest),
{
    law_u64_round_trip(x.0, rest);
}

/// A string of fewer than 65536 bytes is read back as it was written.
pub proof fn law_str_round_trip(chars: Seq<char>, rest: Seq<u8>)
    requires
        sendable_str(chars),
    ensures
        decode_str(encode_str(chars) + rest) == (Ok::<Seq<char>, DeserializeError>(chars), rest),
{
    let bytes = encode_utf8(chars);
    let len = bytes.len() as u16;
    assert(encode_str(chars) + rest =~= encode_u16(len) + (bytes + rest));
    law_u16_round_trip(len, bytes + rest);
    law_bytes_round_trip(bytes, rest);
    assert((bytes + rest).take(len as int) =~= bytes);
    assert((bytes + rest).skip(len as int) =~= rest);
    vstd::utf8::encode_utf8_valid_utf8(chars);
    vstd::utf8::encode_utf8_decode_utf8(chars);
}

/// An IP address is read back as it was written.
pub proof fn law_ip_round_trip(ip: IpAddr, rest: Seq<u8>)
    ensures
        decode_ip(encode_ip(ip) + rest) == (Ok::<IpAddr, DeserializeError>(ip), rest),
{
    match ip {
        IpAddr::V4(octets) => {
            assert(encode_ip(ip) + rest =~= seq![IP_V4] + (octets@ + rest));
            law_u8_round_trip(IP_V4, octets@ + rest);
            law_bytes_round_trip(octets@, rest);
            lemma_octets_of::<4>(octets);
        },
        IpAddr::V6(octets) => {
            assert(encode_ip(ip) + rest =~= seq![IP_V6] + (octets@ + rest));
            law_u8_round_trip(IP_V6, octets@ + rest);
            law_bytes_round_trip(octets@, rest);
            lemma_octets_of::<16>(octets);
        },
    }
}

/// An address without flow information and scope is read back as it was written.
pub proof fn law_addr_round_trip(addr: SocketAddr, rest: Seq<u8>)
    requires
        sendable_addr(addr),
    ensures
        decode_addr(encode_addr(addr) + rest) == (Ok::<SocketAddr, DeserializeError>(addr), rest),
{
    let port = encode_u16(addr.spec_port());
    assert(encode_addr(addr) + rest =~= encode_ip(addr.spec_ip()) + (port + rest));
    law_ip_round_trip(addr.spec_ip(), port + rest);
    law_u16_round_trip(addr.spec_port(), rest);
}

/// An identity that loses nothing on the wire is read back as it was written.
pub proof fn law_member_id_round_trip(member_id: MemberIdView, rest: Seq<u8>)
    requires
        sendable_member_id(member_id),
    ensures
        decode_member_id(encode_member_id(member_id) + rest) == (
            Ok::<MemberIdView, DeserializeError>(member_id),
            rest,
        ),
{
    let incarnation = encode_u64(member_id.incarnation);
    let addr = encode_addr(member_id.gossip_addr);
    assert(encode_member_id(member_id) + rest =~= encode_str(member_id.id) + (incarnation + (addr
        + rest)));
    law_str_round_trip(member_id.id, incarnation + (addr + rest));
    law_u64_round_trip(member_id.incarnation, addr + rest);
    law_addr_round_trip(member_id.gossip_addr, rest);
}

// ---------------------------------------------------------------------------
// Self-check

proof fn lemma_le_value(bytes: Seq<u8>)
    ensures
        le_bytes(le_value(bytes), bytes.len()) == bytes,
    decreases bytes.len(),
{
    if bytes.len() == 0 {
        assert(le_bytes(le_value(bytes), 0) =~= bytes);
    } else {
        let rest = bytes.drop_first();
        lemma_le_value(rest);
        assert((bytes[0] as nat + 256 * le_value(rest)) % 256 == bytes[0] as nat);
        assert((bytes[0] as nat + 256 * le_value(rest)) / 256 == le_value(rest));
        assert(le_bytes(le_value(bytes), bytes.len()) =~= bytes);
    }
}

/// Bytes that a `u16` was read from are written back as they were.
pub proof fn law_u16_is_written_back(bytes: Seq<u8>)
    ensures
        decode_u16(bytes) matches (Ok(x), rest) ==> bytes == encode_u16(x) + rest,
{
    if bytes.len() >= 2 {
        lemma_byte_ranges();
        lemma_le_value_bound(bytes.take(2));
        lemma_le_value(bytes.take(2));
        assert(bytes =~= bytes.take(2) + bytes.skip(2));
    }
}

/// Bytes that a `u64` was read from are written back as they were.
pub proof fn law_u64_is_written_back(bytes: Seq<u8>)
    ensures
        decode_u64(bytes) matches (Ok(x), rest) ==> bytes == encode_u64(x) + rest,
{
    if bytes.len() >= 8 {
        lemma_byte_ranges();
        lemma_le_value_bound(bytes.take(8));
        lemma_le_value(bytes.take(8));
        assert(bytes =~= bytes.take(8) + bytes.skip(8));
    }
}

/// Bytes that a string was read from are written back as they were.
pub proof fn law_str_is_written_back(bytes: Seq<u8>)
    ensures
        decode_str(bytes) matches (Ok(chars), rest) ==> bytes == encode_str(chars) + rest,
{
    law_u16_is_written_back(bytes);
    let (len, rest) = decode_u16(bytes);
    if decode_str(bytes).0 is Ok {
        let count = len->Ok_0 as int;
        decode_utf8_encode_utf8(rest.take(count));
        assert(bytes =~= encode_u16(len->Ok_0) + rest.take(count) + rest.skip(count));
    }
}

/// Bytes that an IP address was read from are written back as they were.
pub proof fn law_ip_is_written_back(bytes: Seq<u8>)
    ensures
        decode_ip(bytes) matches (Ok(ip), rest) ==> bytes == encode_ip(ip) + rest,
{
    if decode_ip(bytes).0 is Ok {
        let tail = bytes.skip(1);
        if bytes[0] == IP_V4 {
            let o = tail.take(4);
            let array: [u8; 4] = [o[0], o[1], o[2], o[3]];
            assert(array@ =~= o);
            lemma_octets_of::<4>(array);
            assert(bytes =~= seq![IP_V4] + o + tail.skip(4));
        } else {
            let o = tail.take(16);
            let array: [u8; 16] = [
                o[0],
                o[1],
                o[2],
                o[3],
                o[4],
                o[5],
                o[6],
                o[7],
                o[8],
                o[9],
                o[10],
                o[11],
                o[12],
                o[13],
                o[14],
                o[15],
            ];
            assert(array@ =~= o);
            lemma_octets_of::<16>(array);
            assert(bytes =~= seq![IP_V6] + o + tail.skip(16));
        }
    }
}

/// Bytes that an identity was read from are written back as they were.
pub proof fn law_member_id_is_written_back(bytes: Seq<u8>)
    ensures
        decode_member_id(bytes) matches (Ok(member_id), rest) ==> bytes == encode_member_id(
            member_id,
        ) + rest,
{
    if decode_member_id(bytes).0 is Ok {
        let (id, after_id) = decode_str(bytes);
        let (incarnation, after_incarnation) = decode_u64(after_id);
        let (ip, after_ip) = decode_ip(after_incarnation);
        let (port, rest) = decode_u16(after_ip);
        law_str_is_written_back(bytes);
        law_u64_is_written_back(after_id);
        law_ip_is_written_back(after_incarnation);
        law_u16_is_written_back(after_ip);
        assert(bytes =~= encode_str(id->Ok_0) + encode_u64(incarnation->Ok_0) + (encode_ip(
            ip->Ok_0,
        ) + encode_u16(port->Ok_0)) + rest);
    }
}

/// Whether `copy` is a value that reading back the bytes of `obj` can yield.
pub open spec fn read_back<T: Serializable + Deserializable>(obj: &T, copy: &T) -> bool {
    &&& copy.well_formed()
    &&& T::decode(obj.encoding()).0 == Ok::<T::Model, DeserializeError>(copy.model())
}

/// Serializes `obj`, and tells whether it takes exactly `num_bytes` bytes, as announced
/// by its `serialized_len`, and is equal to what they are read back as.
pub fn test_serdeser_aux<T: Serializable + Deserializable + PartialEq>(
    obj: &T,
    num_bytes: usize,
) -> (ok: bool)
    ensures
        ok ==> obj.encoding().len() == num_bytes,
        ok ==> T::decode(obj.encoding()).0 is Ok,
        ok && T::obeys_eq_spec() ==> exists|copy: T| #[trigger]
            read_back(obj, &copy) && obj.eq_spec(&copy),
        obj.encoding().len() == num_bytes && T::decode(obj.encoding()).0 is Ok
            && T::obeys_eq_spec() && (forall|copy: T| #[trigger]
            read_back(obj, &copy) ==> obj.eq_spec(&copy)) ==> ok,
{
    let mut buf: Vec<u8> = Vec::new();
    obj.serialize(&mut buf);
    assert(buf@ =~= obj.encoding());
    if buf.len() != obj.serialized_len() || buf.len() != num_bytes {
        return false;
    }
    let mut bytes: &[u8] = buf.as_slice();
    match T::deserialize(&mut bytes) {
        Ok(copy) => {
            assert(read_back(obj, &copy));
            *obj == copy
        },
        Err(_) => false,
    }
}

// ---------------------------------------------------------------------------
// What stands where

/// The byte at place `i` holds the `i`-th digit to the base 256, the lowest digit first.
pub proof fn law_low_bytes_come_first(x: nat, count: nat, i: int)
    requires
        0 <= i < count,
    ensures
        le_bytes(x, count).len() == count,
        le_bytes(x, count)[i] == (x as int / pow(256, i as nat)) % 256,
    decreases count,
{
    lemma_le_bytes_len(x, count);
    if i == 0 {
        lemma_pow0(256);
    } else {
        let above = (i - 1) as nat;
        law_low_bytes_come_first(x / 256, (count - 1) as nat, i - 1);
        lemma_pow_positive(256, above);
        lemma_pow_adds(256, 1, above);
        lemma_pow1(256);
        lemma_div_denominator(x as int, 256, pow(256, above));
        assert(le_bytes(x, count)[i] == le_bytes(x / 256, (count - 1) as nat)[i - 1]);
    }
}

/// A `u16` takes two bytes, the lower one first.
pub proof fn law_u16_bytes(x: u16)
    ensures
        encode_u16(x).len() == 2,
        encode_u16(x)[0] == x % 256,
        encode_u16(x)[1] == x / 256,
{
    reveal_with_fuel(le_bytes, 3);
}

/// A `u64` takes eight bytes, the lowest one first.
pub proof fn law_u64_bytes(x: u64, i: int)
    requires
        0 <= i < 8,
    ensures
        encode_u64(x).len() == 8,
        encode_u64(x)[i] == (x as int / pow(256, i as nat)) % 256,
{
    law_low_bytes_come_first(x as nat, 8, i);
}

/// A string is its length in bytes, of which sixteen bits are kept, and its UTF-8 bytes.
pub proof fn law_str_bytes(chars: Seq<char>)
    ensures
        ({
            let text = encode_utf8(chars);
            &&& encode_str(chars).len() == 2 + text.len()
            &&& encode_str(chars)[0] == text.len() % 256
            &&& encode_str(chars)[1] == (text.len() / 256) % 256
            &&& encode_str(chars).skip(2) == text
        }),
{
    let text = encode_utf8(chars);
    let len = (text.len() % 0x1_0000) as u16;
    law_u16_bytes(len);
    assert(encode_str(chars).skip(2) =~= text);
}

/// An address is the digit of its family, its octets, and its port, the lower byte first.
pub proof fn law_addr_bytes(addr: SocketAddr)
    ensures
        match addr {
            SocketAddr::V4 { octets, port } => {
                &&& encode_ip(IpAddr::V4(octets)) == seq![4u8] + octets@
                &&& encode_addr(addr) == seq![4u8] + octets@ + seq![
                    (port % 256) as u8,
                    (port / 256) as u8,
                ]
            },
            SocketAddr::V6 { octets, port, .. } => {
                &&& encode_ip(IpAddr::V6(octets)) == seq![6u8] + octets@
                &&& encode_addr(addr) == seq![6u8] + octets@ + seq![
                    (port % 256) as u8,
                    (port / 256) as u8,
                ]
            },
        },
{
    let port = match addr {
        SocketAddr::V4 { port, .. } => port,
        SocketAddr::V6 { port, .. } => port,
    };
    law_u16_bytes(port);
    assert(encode_u16(port) =~= seq![(port % 256) as u8, (port / 256) as u8]);
}

/// An identity is the identifier, the incarnation, and the gossip address, in that order.
pub proof fn law_member_id_bytes(member_id: MemberIdView)
    ensures
        ({
            let bytes = encode_member_id(member_id);
            let id = 2 + encode_utf8(member_id.id).len() as int;
            &&& bytes.take(id) == encode_str(member_id.id)
            &&& bytes.subrange(id, id + 8) == encode_u64(member_id.incarnation)
            &&& bytes.skip(id + 8) == encode_addr(member_id.gossip_addr)
        }),
{
    let bytes = encode_member_id(member_id);
    let id = 2 + encode_utf8(member_id.id).len() as int;
    law_str_bytes(member_id.id);
    law_u64_bytes(member_id.incarnation, 0);
    assert(bytes.take(id) =~= encode_str(member_id.id));
    assert(bytes.subrange(id, id + 8) =~= encode_u64(member_id.incarnation));
    assert(bytes.skip(id + 8) =~= encode_addr(member_id.gossip_addr));
}

// ---------------------------------------------------------------------------
// What is refused

/// A number needs all its bytes; where some are missing, none is taken.
pub proof fn law_missing_bytes_are_refused(bytes: Seq<u8>)
    ensures
        bytes.len() < 1 ==> decode_u8(bytes) == (
            Err::<u8, DeserializeError>(DeserializeError::BufferTooShort),
            bytes,
        ),
        bytes.len() < 1 ==> decode_bool(bytes) == (
            Err::<bool, DeserializeError>(DeserializeError::BufferTooShort),
            bytes,
        ),
        bytes.len() < 2 ==> decode_u16(bytes) == (
            Err::<u16, DeserializeError>(DeserializeError::BufferTooShort),
            bytes,
        ),
        bytes.len() < 8 ==> decode_u64(bytes) == (
            Err::<u64, DeserializeError>(DeserializeError::BufferTooShort),
            bytes,
        ),
{
}

/// With its bytes there, a number is read whatever they are, and no byte behind them is taken.
pub proof fn law_numbers_are_read(bytes: Seq<u8>)
    ensures
        bytes.len() >= 1 ==> decode_u8(bytes) == (
            Ok::<u8, DeserializeError>(bytes[0]),
            bytes.skip(1),
        ),
        bytes.len() >= 1 ==> decode_bool(bytes) == (
            Ok::<bool, DeserializeError>(bytes[0] != 0),
            bytes.skip(1),
        ),
        bytes.len() >= 2 ==> decode_u16(bytes) == (
            Ok::<u16, DeserializeError>((bytes[0] + 256 * bytes[1]) as u16),
            bytes.skip(2),
        ),
        bytes.len() >= 8 ==> decode_u64(bytes).0 is Ok && decode_u64(bytes).1 == bytes.skip(8),
{
    reveal_with_fuel(le_value, 3);
    if bytes.len() >= 2 {
        assert(bytes.take(2).drop_first()[0] == bytes[1]);
        assert(bytes.take(2).drop_first().drop_first() =~= Seq::empty());
    }
}

proof fn lemma_valid_front(bytes: Seq<u8>, top: nat)
    requires
        top <= bytes.len(),
    ensures
        valid_front(bytes, top) <= top,
        valid_front(bytes, top) == 0 || valid_utf8(
            bytes.take(valid_front(bytes, top) as int),
        ),
        forall|n: nat|
            valid_front(bytes, top) < n <= top ==> !valid_utf8(#[trigger] bytes.take(n as int)),
    decreases top,
{
    if top > 0 && !valid_utf8(bytes.take(top as int)) {
        lemma_valid_front(bytes, (top - 1) as nat);
    }
}

/// A string is refused if the two bytes of its length are missing, or some of the bytes that
/// they announce, or if those are not UTF-8, telling then the longest front that is; otherwise
/// it is read, and no byte behind it is taken.
pub proof fn law_strings_are_read(bytes: Seq<u8>)
    requires
        bytes.len() <= usize::MAX,
    ensures
        bytes.len() < 2 ==> decode_str(bytes) == (
            Err::<Seq<char>, DeserializeError>(DeserializeError::BufferTooShort),
            bytes,
        ),
        bytes.len() >= 2 ==> {
            let len = bytes[0] + 256 * bytes[1];
            let text = bytes.subrange(2, 2 + len);
            &&& bytes.len() - 2 < len ==> decode_str(bytes) == (
                Err::<Seq<char>, DeserializeError>(
                    DeserializeError::StringTooShort {
                        str_len: len as usize,
                        buf_len: (bytes.len() - 2) as usize,
                    },
                ),
                bytes.skip(2),
            )
            &&& bytes.len() - 2 >= len && valid_utf8(text) ==> decode_str(bytes) == (
                Ok::<Seq<char>, DeserializeError>(decode_utf8(text)),
                bytes.skip(2 + len),
            )
            &&& bytes.len() - 2 >= len && !valid_utf8(text) ==> {
                &&& decode_str(bytes).1 == bytes.skip(2)
                &&& decode_str(bytes).0 matches Err(
                    DeserializeError::InvalidUtf8 { valid_up_to, error_len },
                )
                &&& error_len == utf8_error_len(text)
                &&& valid_up_to <= len
                &&& valid_up_to == 0 || valid_utf8(text.take(valid_up_to as int))
                &&& forall|n: nat|
                    valid_up_to < n <= len ==> !valid_utf8(#[trigger] text.take(n as int))
            }
        },
{
    law_missing_bytes_are_refused(bytes);
    law_numbers_are_read(bytes);
    if bytes.len() >= 2 {
        let len = bytes[0] + 256 * bytes[1];
        let rest = bytes.skip(2);
        if rest.len() >= len {
            let text = bytes.subrange(2, 2 + len);
            assert(rest.take(len) =~= text);
            assert(rest.skip(len) =~= bytes.skip(2 + len));
            lemma_valid_front(text, text.len());
        }
    }
}

/// An IP address is refused if it is of no family, or if octets are missing; otherwise it is
/// read, and no byte behind it is taken.
pub proof fn law_ips_are_read(bytes: Seq<u8>)
    ensures
        bytes.len() == 0 ==> decode_ip(bytes) == (
            Err::<IpAddr, DeserializeError>(DeserializeError::BufferTooShort),
            bytes,
        ),
        bytes.len() > 0 ==> {
            let octets: nat = if bytes[0] == 4 {
                4
            } else {
                16
            };
            &&& bytes[0] != 4 && bytes[0] != 6 ==> decode_ip(bytes) == (
                Err::<IpAddr, DeserializeError>(DeserializeError::InvalidIpVersion(bytes[0])),
                bytes.skip(1),
            )
            &&& (bytes[0] == 4 || bytes[0] == 6) && bytes.len() <= octets ==> decode_ip(bytes) == (
                Err::<IpAddr, DeserializeError>(DeserializeError::BufferTooShort),
                bytes.skip(1),
            )
            &&& (bytes[0] == 4 || bytes[0] == 6) && bytes.len() > octets ==> {
                &&& decode_ip(bytes).0 is Ok
                &&& decode_ip(bytes).1 == bytes.skip(1 + octets as int)
            }
        },
{
    law_missing_bytes_are_refused(bytes);
    law_numbers_are_read(bytes);
    if bytes.len() > 16 {
        assert(bytes.skip(1).skip(16) =~= bytes.skip(17));
    }
    if bytes.len() > 4 {
        assert(bytes.skip(1).skip(4) =~= bytes.skip(5));
    }
}

/// An address or an identity is refused for the first of its parts that is refused.
pub proof fn law_first_refusal_decides(bytes: Seq<u8>)
    ensures
        match decode_ip(bytes) {
            (Err(error), rest) => decode_addr(bytes) == (
                Err::<SocketAddr, DeserializeError>(error),
                rest,
            ),
            (Ok(ip), rest) => if rest.len() < 2 {
                decode_addr(bytes) == (
                    Err::<SocketAddr, DeserializeError>(DeserializeError::BufferTooShort),
                    rest,
                )
            } else {
                decode_addr(bytes).0 is Ok && decode_addr(bytes).1 == rest.skip(2)
            },
        },
        match decode_str(bytes) {
            (Err(error), rest) => decode_member_id(bytes) == (
                Err::<MemberIdView, DeserializeError>(error),
                rest,
            ),
            (Ok(id), rest) => if rest.len() < 8 {
                decode_member_id(bytes) == (
                    Err::<MemberIdView, DeserializeError>(DeserializeError::BufferTooShort),
                    rest,
                )
            } else {
                match decode_addr(rest.skip(8)) {
                    (Err(error), rest) => decode_member_id(bytes) == (
                        Err::<MemberIdView, DeserializeError>(error),
                        rest,
                    ),
                    (Ok(addr), rest) => decode_member_id(bytes).0 is Ok && decode_member_id(bytes).1
                        == rest,
                }
            },
        },
{
}

/// A length that fits is itself; a longer one is the greatest that fits.
pub proof fn law_lengths_saturate(len: nat)
    ensures
        len <= usize::MAX ==> saturated(len) == len,
        len > usize::MAX ==> saturated(len) == usize::MAX,
{
}


/// Whatever the numbers that an error carries are, its text tells them in decimal.
pub proof fn law_texts_tell_the_numbers(a: usize, b: usize, byte: u8)
    ensures
        (DeserializeError::StringTooShort { str_len: a, buf_len: b }).text()
            == "failed to deserialize string, buffer too short (str_len="@ + decimal(a as nat)
            + ", buf_len="@ + decimal(b as nat) + ")"@,
        (DeserializeError::InvalidUtf8 { valid_up_to: a, error_len: Some(b) }).text()
            == "invalid utf-8 sequence of "@ + decimal(b as nat) + " bytes from index "@ + decimal(
            a as nat,
        ),
        (DeserializeError::InvalidUtf8 { valid_up_to: a, error_len: None }).text()
            == "incomplete utf-8 byte sequence from index "@ + decimal(a as nat),
        DeserializeError::InvalidIpVersion(byte).text()
            == "invalid IP version byte: expected `4` or `6`, got `"@ + decimal(byte as nat) + "`"@,
        DeserializeError::UnknownDeltaTag(byte).text() == "unknown delta op tag: "@ + decimal(
            byte as nat,
        ),
{
}

} // verus!
