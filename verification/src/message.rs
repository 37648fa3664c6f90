//! Gossip datagrams and their framing.
use crate::delta::{
    decode_delta, encode_delta, law_delta_round_trip, sendable_delta, Delta, MemberDeltaView,
};
use crate::digest::{
    decode_digest, law_digest_round_trip, sendable_digest, Digest, MemberDigest,
};
use crate::serialize::{
    add_lens, consume, decode_str, decode_u16, encode_str, encode_u16, law_str_round_trip,
    law_numbers_are_read, law_u16_bytes, law_u16_round_trip, lemma_le_bytes_len, sendable_str,
    Decoded, Deserializable, DeserializeError, Serializable,
};
use crate::types::MemberIdView;
use vstd::prelude::*;

verus! {

/// The first two bytes of every datagram.
pub const MAGIC_NUMBER: u16 = 0xC4A7;

/// A gossip datagram: a `cluster_id` (validated once, in the common header) plus one of
/// the three handshake messages.
#[derive(Debug, PartialEq, Eq)]
pub struct Message {
    pub cluster_id: String,
    pub kind: MessageKind,
}

/// The three steps of the gossip handshake. The 1-byte tag (see [`MessageType`]) is the
/// handshake's entire state machine.
#[derive(Debug, PartialEq, Eq)]
pub enum MessageKind {
    /// Step 1: the initiator sends its digest.
    Syn { digest: Digest },
    /// Step 2: the peer replies with its own digest and a delta for the initiator.
    SynAck { digest: Digest, delta: Delta },
    /// Step 3: the initiator sends a delta back. Terminates the handshake.
    Ack { delta: Delta },
}

/// What a [`Message`] stands for.
#[verifier::ext_equal]
pub struct MessageView {
    pub cluster_id: Seq<char>,
    pub kind: MessageKindView,
}

/// What a [`MessageKind`] stands for.
#[verifier::ext_equal]
pub enum MessageKindView {
    Syn { digest: Map<MemberIdView, MemberDigest> },
    SynAck { digest: Map<MemberIdView, MemberDigest>, delta: Seq<MemberDeltaView> },
    Ack { delta: Seq<MemberDeltaView> },
}

impl View for MessageKind {
    type V = MessageKindView;

    open spec fn view(&self) -> MessageKindView {
        match self {
            MessageKind::Syn { digest } => MessageKindView::Syn { digest: digest@ },
            MessageKind::SynAck { digest, delta } => MessageKindView::SynAck {
                digest: digest@,
                delta: delta@,
            },
            MessageKind::Ack { delta } => MessageKindView::Ack { delta: delta@ },
        }
    }
}

impl View for Message {
    type V = MessageView;

    open spec fn view(&self) -> MessageView {
        MessageView { cluster_id: self.cluster_id@, kind: self.kind@ }
    }
}

impl MessageKind {
    /// The digest, where there is one, names no member twice.
    pub open spec fn wf(&self) -> bool {
        match self {
            MessageKind::Syn { digest } => digest.wf(),
            MessageKind::SynAck { digest, .. } => digest.wf(),
            MessageKind::Ack { .. } => true,
        }
    }

    pub open spec fn message_type(&self) -> MessageType {
        match self {
            MessageKind::Syn { .. } => MessageType::Syn,
            MessageKind::SynAck { .. } => MessageType::SynAck,
            MessageKind::Ack { .. } => MessageType::Ack,
        }
    }

    /// What follows the message type.
    pub open spec fn payload(&self) -> Seq<u8> {
        match self {
            MessageKind::Syn { digest } => digest.encoding(),
            MessageKind::SynAck { digest, delta } => digest.encoding() + encode_delta(delta@),
            MessageKind::Ack { delta } => encode_delta(delta@),
        }
    }
}

impl Message {
    pub open spec fn wf(&self) -> bool {
        self.kind.wf()
    }

    pub fn new(cluster_id: String, kind: MessageKind) -> (message: Self)
        ensures
            message == (Message { cluster_id, kind }),
    {
        Message { cluster_id, kind }
    }
}

/// The version of the protocol.
#[derive(Debug, Clone, Copy, PartialEq, Eq, Structural)]
pub enum ProtocolVersion {
    V0,
}

impl ProtocolVersion {
    pub open spec fn spec_from_code(code: u8) -> Option<ProtocolVersion> {
        if code == 0 {
            Some(ProtocolVersion::V0)
        } else {
            None
        }
    }

    pub open spec fn code(self) -> u8 {
        0
    }

    pub fn from_code(code: u8) -> (version: Option<Self>)
        ensures
            version == ProtocolVersion::spec_from_code(code),
    {
        match code {
            0 => Some(ProtocolVersion::V0),
            _ => None,
        }
    }

    pub fn to_code(self) -> (code: u8)
        ensures
            code == self.code(),
    {
        0
    }
}

/// The tag that tells the handshake messages apart.
#[derive(Debug, Clone, Copy, PartialEq, Eq, Structural)]
pub enum MessageType {
    Syn,
    SynAck,
    Ack,
}

impl MessageType {
    pub open spec fn spec_from_code(code: u8) -> Option<MessageType> {
        if code == 0 {
            Some(MessageType::Syn)
        } else if code == 1 {
            Some(MessageType::SynAck)
        } else if code == 2 {
            Some(MessageType::Ack)
        } else {
            None
        }
    }

    pub open spec fn code(self) -> u8 {
        match self {
            MessageType::Syn => 0,
            MessageType::SynAck => 1,
            MessageType::Ack => 2,
        }
    }

    pub fn from_code(code: u8) -> (message_type: Option<Self>)
        ensures
            message_type == MessageType::spec_from_code(code),
    {
        match code {
            0 => Some(MessageType::Syn),
            1 => Some(MessageType::SynAck),
            2 => Some(MessageType::Ack),
            _ => None,
        }
    }

    pub fn to_code(self) -> (code: u8)
        ensures
            code == self.code(),
    {
        match self {
            MessageType::Syn => 0,
            MessageType::SynAck => 1,
            MessageType::Ack => 2,
        }
    }
}

/// The common header: magic number, protocol version, cluster, message type.
pub open spec fn encode_header(cluster_id: Seq<char>, message_type: MessageType) -> Seq<u8> {
    encode_u16(MAGIC_NUMBER) + seq![ProtocolVersion::V0.code()] + encode_str(cluster_id) + seq![
        message_type.code(),
    ]
}

/// The length of the common header.
pub proof fn lemma_header_len(cluster_id: Seq<char>, message_type: MessageType)
    ensures
        encode_header(cluster_id, message_type).len() == 4 + encode_str(cluster_id).len(),
{
    lemma_le_bytes_len(MAGIC_NUMBER as nat, 2);
}

impl Serializable for Message {
    open spec fn encoding(&self) -> Seq<u8> {
        encode_header(self.cluster_id@, self.kind.message_type()) + self.kind.payload()
    }

    fn serialize(&self, buf: &mut Vec<u8>) {
        let ghost before = buf@;
        MAGIC_NUMBER.serialize(buf);
        buf.push(ProtocolVersion::V0.to_code());
        // Common header: cluster_id is validated once per datagram, before the tag.
        self.cluster_id.serialize(buf);
        match &self.kind {
            MessageKind::Syn { digest } => {
                buf.push(MessageType::Syn.to_code());
                digest.serialize(buf);
            },
            MessageKind::SynAck { digest, delta } => {
                buf.push(MessageType::SynAck.to_code());
                digest.serialize(buf);
                delta.serialize(buf);
            },
            MessageKind::Ack { delta } => {
                buf.push(MessageType::Ack.to_code());
                delta.serialize(buf);
            },
        }
        assert(buf@ =~= before + self.encoding());
    }

    fn serialized_len(&self) -> (len: usize) {
        let ghost id_len = encode_str(self.cluster_id@).len();
        proof {
            lemma_header_len(self.cluster_id@, self.kind.message_type());
        }
        let header = add_lens(4, self.cluster_id.serialized_len(), Ghost(4), Ghost(id_len));
        match &self.kind {
            MessageKind::Syn { digest } => add_lens(
                header,
                digest.serialized_len(),
                Ghost(4 + id_len),
                Ghost(digest.encoding().len()),
            ),
            MessageKind::SynAck { digest, delta } => {
                let ghost digest_len = digest.encoding().len();
                let len = add_lens(
                    header,
                    digest.serialized_len(),
                    Ghost(4 + id_len),
                    Ghost(digest_len),
                );
                add_lens(
                    len,
                    delta.serialized_len(),
                    Ghost(4 + id_len + digest_len),
                    Ghost(delta.encoding().len()),
                )
            },
            MessageKind::Ack { delta } => add_lens(
                header,
                delta.serialized_len(),
                Ghost(4 + id_len),
                Ghost(delta.encoding().len()),
            ),
        }
    }
}

/// Reads what follows the message type.
#[verifier::opaque]
pub open spec fn decode_kind(message_type: MessageType, bytes: Seq<u8>) -> Decoded<
    MessageKindView,
> {
    match message_type {
        MessageType::Syn => match decode_digest(bytes) {
            (Ok(digest), rest) => (Ok(MessageKindView::Syn { digest }), rest),
            (Err(error), rest) => (Err(error), rest),
        },
        MessageType::SynAck => match decode_digest(bytes) {
            (Ok(digest), rest) => match decode_delta(rest) {
                (Ok(delta), rest) => (Ok(MessageKindView::SynAck { digest, delta }), rest),
                (Err(error), rest) => (Err(error), rest),
            },
            (Err(error), rest) => (Err(error), rest),
        },
        MessageType::Ack => match decode_delta(bytes) {
            (Ok(delta), rest) => (Ok(MessageKindView::Ack { delta }), rest),
            (Err(error), rest) => (Err(error), rest),
        },
    }
}

pub open spec fn decode_message(bytes: Seq<u8>) -> Decoded<MessageView> {
    if bytes.len() < 3 {
        (Err(DeserializeError::HeaderTooShort), bytes)
    } else if decode_u16(bytes).0 != Ok::<u16, DeserializeError>(MAGIC_NUMBER) {
        (Err(DeserializeError::InvalidMagicNumber), bytes)
    } else if ProtocolVersion::spec_from_code(bytes[2]) is None {
        (Err(DeserializeError::InvalidProtocolVersion), bytes)
    } else {
        match decode_str(bytes.skip(3)) {
            (Ok(cluster_id), rest) => if rest.len() == 0 {
                (Err(DeserializeError::InvalidMessageType), rest)
            } else {
                match MessageType::spec_from_code(rest[0]) {
                    Some(message_type) => match decode_kind(message_type, rest.skip(1)) {
                        (Ok(kind), rest) => (Ok(MessageView { cluster_id, kind }), rest),
                        (Err(error), rest) => (Err(error), rest),
                    },
                    None => (Err(DeserializeError::InvalidMessageType), rest),
                }
            },
            (Err(error), rest) => (Err(error), rest),
        }
    }
}

/// Reads what follows the message type.
fn deserialize_kind(message_type: MessageType, buf: &mut &[u8]) -> (result: Result<
    MessageKind,
    DeserializeError,
>)
    ensures
        final(buf)@ == decode_kind(message_type, old(buf)@).1,
        match result {
            Ok(kind) => kind.wf() && decode_kind(message_type, old(buf)@).0 == Ok::<
                MessageKindView,
                DeserializeError,
            >(kind@),
            Err(error) => decode_kind(message_type, old(buf)@).0 == Err::<
                MessageKindView,
                DeserializeError,
            >(error),
        },
{
    reveal(decode_kind);
    match message_type {
        MessageType::Syn => match Digest::deserialize(buf) {
            Ok(digest) => Ok(MessageKind::Syn { digest }),
            Err(error) => Err(error),
        },
        MessageType::SynAck => {
            let digest = match Digest::deserialize(buf) {
                Ok(digest) => digest,
                Err(error) => {
                    return Err(error);
                },
            };
            match Delta::deserialize(buf) {
                Ok(delta) => Ok(MessageKind::SynAck { digest, delta }),
                Err(error) => Err(error),
            }
        },
        MessageType::Ack => match Delta::deserialize(buf) {
            Ok(delta) => Ok(MessageKind::Ack { delta }),
            Err(error) => Err(error),
        },
    }
}

impl Deserializable for Message {
    type Model = MessageView;

    open spec fn model(&self) -> MessageView {
        self@
    }

    open spec fn well_formed(&self) -> bool {
        self.wf()
    }

    open spec fn decode(bytes: Seq<u8>) -> Decoded<MessageView> {
        decode_message(bytes)
    }

    fn deserialize(buf: &mut &[u8]) -> (result: Result<Self, DeserializeError>) {
        if buf.len() < 3 {
            return Err(DeserializeError::HeaderTooShort);
        }
        let mut header: &[u8] = *buf;
        match u16::deserialize(&mut header) {
            Ok(magic_number) => {
                if magic_number != MAGIC_NUMBER {
                    return Err(DeserializeError::InvalidMagicNumber);
                }
            },
            Err(_) => {
                return Err(DeserializeError::InvalidMagicNumber);
            },
        }
        if ProtocolVersion::from_code(buf[2]).is_none() {
            return Err(DeserializeError::InvalidProtocolVersion);
        }
        consume(buf, 3);
        let cluster_id = match String::deserialize(buf) {
            Ok(cluster_id) => cluster_id,
            Err(error) => {
                return Err(error);
            },
        };
        if buf.len() == 0 {
            return Err(DeserializeError::InvalidMessageType);
        }
        let message_type = match MessageType::from_code(buf[0]) {
            Some(message_type) => message_type,
            None => {
                return Err(DeserializeError::InvalidMessageType);
            },
        };
        consume(buf, 1);
        match deserialize_kind(message_type, buf) {
            Ok(kind) => Ok(Message { cluster_id, kind }),
            Err(error) => Err(error),
        }
    }
}

// ---------------------------------------------------------------------------
// Laws

/// A message type is found again by its code.
pub proof fn law_message_type_round_trip(message_type: MessageType)
    ensures
        MessageType::spec_from_code(message_type.code()) == Some(message_type),
{
}

/// A payload that loses nothing on the wire.
pub open spec fn sendable_kind(kind: MessageKind) -> bool {
    match kind {
        MessageKind::Syn { digest } => sendable_digest(digest),
        MessageKind::SynAck { digest, delta } => sendable_digest(digest) && sendable_delta(delta@),
        MessageKind::Ack { delta } => sendable_delta(delta@),
    }
}

/// A message that loses nothing on the wire.
pub open spec fn sendable_message(message: Message) -> bool {
    sendable_str(message.cluster_id@) && sendable_kind(message.kind)
}

proof fn lemma_kind_round_trip(kind: MessageKind)
    requires
        sendable_kind(kind),
    ensures
        decode_kind(kind.message_type(), kind.payload()) == (
            Ok::<MessageKindView, DeserializeError>(kind@),
            Seq::<u8>::empty(),
        ),
{
    reveal(decode_kind);
    let none = Seq::<u8>::empty();
    match kind {
        MessageKind::Syn { digest } => {
            law_digest_round_trip(digest, none);
            assert(digest.encoding() + none =~= digest.encoding());
        },
        MessageKind::SynAck { digest, delta } => {
            law_digest_round_trip(digest, encode_delta(delta@));
            law_delta_round_trip(delta@);
        },
        MessageKind::Ack { delta } => {
            law_delta_round_trip(delta@);
        },
    }
}

proof fn lemma_header_round_trip(
    cluster_id: Seq<char>,
    message_type: MessageType,
    payload: Seq<u8>,
)
    requires
        sendable_str(cluster_id),
    ensures
        ({
            let bytes = encode_header(cluster_id, message_type) + payload;
            let tail = seq![message_type.code()] + payload;
            &&& bytes.len() >= 3
            &&& decode_u16(bytes).0 == Ok::<u16, DeserializeError>(MAGIC_NUMBER)
            &&& bytes[2] == ProtocolVersion::V0.code()
            &&& decode_str(bytes.skip(3)) == (Ok::<Seq<char>, DeserializeError>(cluster_id), tail)
            &&& tail[0] == message_type.code()
            &&& tail.skip(1) == payload
        }),
{
    let bytes = encode_header(cluster_id, message_type) + payload;
    let tail = seq![message_type.code()] + payload;
    let id = encode_str(cluster_id);
    let version = seq![ProtocolVersion::V0.code()];
    lemma_le_bytes_len(MAGIC_NUMBER as nat, 2);
    assert(bytes =~= encode_u16(MAGIC_NUMBER) + (version + (id + tail)));
    law_u16_round_trip(MAGIC_NUMBER, version + (id + tail));
    assert(bytes.skip(3) =~= id + tail);
    law_str_round_trip(cluster_id, tail);
    assert(tail.skip(1) =~= payload);
}

/// A message that loses nothing on the wire is read back as it was written.
pub proof fn law_message_round_trip(message: Message)
    requires
        sendable_message(message),
    ensures
        decode_message(message.encoding()) == (
            Ok::<MessageView, DeserializeError>(message@),
            Seq::<u8>::empty(),
        ),
{
    let message_type = message.kind.message_type();
    lemma_header_round_trip(message.cluster_id@, message_type, message.kind.payload());
    law_message_type_round_trip(message_type);
    lemma_kind_round_trip(message.kind);
}

/// A datagram is the bytes A7, C4 and zero, the cluster, the digit of the message's kind, and
/// what it brings.
pub proof fn law_message_bytes(message: Message)
    ensures
        ({
            let bytes = message.encoding();
            let tag = 3 + encode_str(message.cluster_id@).len() as int;
            &&& bytes.len() > tag
            &&& bytes[0] == 0xA7
            &&& bytes[1] == 0xC4
            &&& bytes[2] == 0
            &&& bytes.subrange(3, tag) == encode_str(message.cluster_id@)
            &&& match message.kind {
                MessageKind::Syn { digest } => bytes[tag] == 0 && bytes.skip(tag + 1)
                    == digest.encoding(),
                MessageKind::SynAck { digest, delta } => bytes[tag] == 1 && bytes.skip(tag + 1)
                    == digest.encoding() + delta.encoding(),
                MessageKind::Ack { delta } => bytes[tag] == 2 && bytes.skip(tag + 1)
                    == delta.encoding(),
            }
        }),
{
    let bytes = message.encoding();
    let tag = 3 + encode_str(message.cluster_id@).len() as int;
    law_u16_bytes(MAGIC_NUMBER);
    lemma_header_len(message.cluster_id@, message.kind.message_type());
    assert(bytes.subrange(3, tag) =~= encode_str(message.cluster_id@));
    assert(bytes.skip(tag + 1) =~= message.kind.payload());
}

/// A datagram is refused if the first three bytes are missing or are not A7, C4 and zero; if the
/// cluster is refused; if no digit of a kind follows; or for the first part of what it brings
/// that is refused. Otherwise it is read.
pub proof fn law_datagrams_are_read(bytes: Seq<u8>)
    ensures
        bytes.len() < 3 ==> decode_message(bytes) == (
            Err::<MessageView, DeserializeError>(DeserializeError::HeaderTooShort),
            bytes,
        ),
        bytes.len() >= 3 && (bytes[0] != 0xA7 || bytes[1] != 0xC4) ==> decode_message(bytes) == (
            Err::<MessageView, DeserializeError>(DeserializeError::InvalidMagicNumber),
            bytes,
        ),
        bytes.len() >= 3 && bytes[0] == 0xA7 && bytes[1] == 0xC4 && bytes[2] != 0
            ==> decode_message(bytes) == (
            Err::<MessageView, DeserializeError>(DeserializeError::InvalidProtocolVersion),
            bytes,
        ),
        bytes.len() >= 3 && bytes[0] == 0xA7 && bytes[1] == 0xC4 && bytes[2] == 0
            ==> match decode_str(bytes.skip(3)) {
            (Err(error), rest) => decode_message(bytes) == (
                Err::<MessageView, DeserializeError>(error),
                rest,
            ),
            (Ok(cluster_id), rest) => {
                let payload = rest.skip(1);
                &&& rest.len() == 0 || rest[0] > 2 ==> decode_message(bytes) == (
                    Err::<MessageView, DeserializeError>(DeserializeError::InvalidMessageType),
                    rest,
                )
                &&& rest.len() > 0 && rest[0] == 0 ==> match decode_digest(payload) {
                    (Err(error), rest) => decode_message(bytes) == (
                        Err::<MessageView, DeserializeError>(error),
                        rest,
                    ),
                    (Ok(digest), rest) => decode_message(bytes) == (
                        Ok::<MessageView, DeserializeError>(
                            (MessageView { cluster_id, kind: MessageKindView::Syn { digest } }),
                        ),
                        rest,
                    ),
                }
                &&& rest.len() > 0 && rest[0] == 1 ==> match decode_digest(payload) {
                    (Err(error), rest) => decode_message(bytes) == (
                        Err::<MessageView, DeserializeError>(error),
                        rest,
                    ),
                    (Ok(digest), rest) => match decode_delta(rest) {
                        (Err(error), rest) => decode_message(bytes) == (
                            Err::<MessageView, DeserializeError>(error),
                            rest,
                        ),
                        (Ok(delta), rest) => decode_message(bytes) == (
                            Ok::<MessageView, DeserializeError>(
                                (MessageView {
                                    cluster_id,
                                    kind: MessageKindView::SynAck { digest, delta },
                                }),
                            ),
                            rest,
                        ),
                    },
                }
                &&& rest.len() > 0 && rest[0] == 2 ==> match decode_delta(payload) {
                    (Err(error), rest) => decode_message(bytes) == (
                        Err::<MessageView, DeserializeError>(error),
                        rest,
                    ),
                    (Ok(delta), rest) => decode_message(bytes) == (
                        Ok::<MessageView, DeserializeError>(
                            (MessageView { cluster_id, kind: MessageKindView::Ack { delta } }),
                        ),
                        rest,
                    ),
                }
            },
        },
{
    reveal(decode_kind);
    law_numbers_are_read(bytes);
}

/// The codes of the message types and of the protocol's version are zero, one, two, and zero;
/// nothing else is one.
pub proof fn law_codes(code: u8)
    ensures
        MessageType::Syn.code() == 0,
        MessageType::SynAck.code() == 1,
        MessageType::Ack.code() == 2,
        ProtocolVersion::V0.code() == 0,
        MessageType::spec_from_code(code) is Some <==> code <= 2,
        MessageType::spec_from_code(code) matches Some(message_type) ==> message_type.code()
            == code,
        ProtocolVersion::spec_from_code(code) is Some <==> code == 0,
{
}

} // verus!
