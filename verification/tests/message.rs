use tchatche::delta::Delta;
use tchatche::digest::Digest;
use tchatche::message::{Message, MessageKind, MessageType, ProtocolVersion};
use tchatche::serialize::{Deserializable, DeserializeError, Serializable};
use tchatche::types::{Heartbeat, MemberId};

fn roundtrip(message: &Message) {
    let mut buf = Vec::new();
    message.serialize(&mut buf);
    assert_eq!(buf.len(), message.serialized_len());
    let deser = Message::deserialize(&mut &buf[..]).unwrap();
    assert_eq!(message, &deser);
}

#[test]
fn test_syn_roundtrip() {
    roundtrip(&Message::new(
        "cluster-a".to_string(),
        MessageKind::Syn {
            digest: Digest::default(),
        },
    ));
}

#[test]
fn test_ack_roundtrip() {
    roundtrip(&Message::new(
        "cluster-a".to_string(),
        MessageKind::Ack {
            delta: Delta::default(),
        },
    ));
}

fn syn_ack() -> Message {
    let member = MemberId::for_local_test(10_001);
    let mut digest = Digest::default();
    digest.add_member(member.clone(), Heartbeat(3), 2);
    let mut delta = Delta::default();
    delta.add_member(member.clone(), 0);
    delta.add_kv(&member, "key_a", "val_a", 1);
    Message::new("cluster-a".to_string(), MessageKind::SynAck { digest, delta })
}

#[test]
fn syn_acks_are_read_back() {
    roundtrip(&syn_ack());
}

#[test]
fn a_message_starts_with_its_header() {
    let message = Message::new(
        "ab".to_string(),
        MessageKind::Ack {
            delta: Delta::default(),
        },
    );
    assert_eq!(message.serialize_to_vec(), vec![0xA7, 0xC4, 0, 2, 0, b'a', b'b', 2]);
}

#[test]
fn message_types_have_codes() {
    for (message_type, code) in [
        (MessageType::Syn, 0),
        (MessageType::SynAck, 1),
        (MessageType::Ack, 2),
    ] {
        assert_eq!(message_type.to_code(), code);
        assert_eq!(MessageType::from_code(code), Some(message_type));
    }
    assert_eq!(MessageType::from_code(3), None);
    assert_eq!(ProtocolVersion::from_code(0), Some(ProtocolVersion::V0));
    assert_eq!(ProtocolVersion::from_code(1), None);
    assert_eq!(ProtocolVersion::V0.to_code(), 0);
}

fn error_of(bytes: &[u8]) -> DeserializeError {
    Message::deserialize(&mut &bytes[..]).unwrap_err()
}

#[test]
fn broken_headers_are_errors() {
    let bytes = syn_ack().serialize_to_vec();
    assert_eq!(error_of(&bytes[..2]), DeserializeError::HeaderTooShort);
    let mut wrong_magic = bytes.clone();
    wrong_magic[0] = 0;
    assert_eq!(error_of(&wrong_magic), DeserializeError::InvalidMagicNumber);
    let mut wrong_version = bytes.clone();
    wrong_version[2] = 1;
    assert_eq!(error_of(&wrong_version), DeserializeError::InvalidProtocolVersion);
    // 3 for magic number and version, 2 + 9 for the cluster.
    assert_eq!(error_of(&bytes[..14]), DeserializeError::InvalidMessageType);
    let mut wrong_type = bytes.clone();
    wrong_type[14] = 3;
    assert_eq!(error_of(&wrong_type), DeserializeError::InvalidMessageType);
    assert_eq!(
        error_of(&bytes[..10]),
        DeserializeError::StringTooShort { str_len: 9, buf_len: 5 }
    );
    assert_eq!(error_of(&bytes[..15]), DeserializeError::BufferTooShort);
}
