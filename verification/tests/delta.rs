use bytestring::ByteString;
use tchatche::delta::{
    key_value_serialized_len, Delta, DeltaSerializer, TAG_KEY_VALUE, TAG_MEMBER,
};
use tchatche::serialize::{Deserializable, DeserializeError, Serializable};
use tchatche::types::MemberId;

#[test]
fn test_delta_serialization_roundtrip() {
    let mut delta = Delta::default();
    let member1 = MemberId::for_local_test(10_001);
    delta.add_member(member1.clone(), 0);
    delta.add_kv(&member1, "key_a", "val_a", 1);
    delta.add_kv(&member1, "key_b", "val_b", 2);

    let mut buf = Vec::new();
    delta.serialize(&mut buf);
    assert_eq!(buf.len(), delta.serialized_len());
    let deser = Delta::deserialize(&mut &buf[..]).unwrap();
    assert_eq!(delta.member_deltas, deser.member_deltas);
}

#[test]
fn test_delta_mtu_truncation() {
    let member1 = MemberId::for_local_test(10_001);
    let value = ByteString::from("x".repeat(50));
    let mut serializer = DeltaSerializer::with_mtu(500);
    assert!(serializer.try_add_member(member1.clone(), 0));
    let mut added = 0;
    for version in 1..=100 {
        if !serializer.try_add_kv("k", &value, version) {
            break;
        }
        added += 1;
    }
    let delta = serializer.finish();
    let mut buf = Vec::new();
    delta.serialize(&mut buf);
    assert_eq!(buf.len(), delta.serialized_len());
    assert!(buf.len() <= 500);
    assert!(
        (1..100).contains(&added),
        "mtu should truncate, but add some"
    );
    // 38 bytes for the member, 64 for each key-value.
    assert_eq!(added, 7);
    assert_eq!(buf.len(), 38 + 7 * 64);
}

#[test]
fn nothing_fits_an_mtu_of_zero() {
    let mut serializer = DeltaSerializer::with_mtu(0);
    assert!(!serializer.try_add_member(MemberId::for_local_test(10_001), 0));
    assert!(!serializer.try_add_kv("k", &ByteString::from("v"), 1));
    assert!(serializer.finish().member_deltas.is_empty());
}

#[test]
fn an_op_that_fits_exactly_is_added() {
    let member = MemberId::for_local_test(10_001);
    let mut serializer = DeltaSerializer::with_mtu(38);
    assert!(serializer.try_add_member(member.clone(), 0));
    assert!(!serializer.try_add_kv("", &ByteString::from(""), 1));
    assert_eq!(serializer.finish().serialized_len(), 38);
    let mut short = DeltaSerializer::with_mtu(37);
    assert!(!short.try_add_member(member, 0));
}

#[test]
fn members_are_found_in_a_delta() {
    let member1 = MemberId::for_local_test(10_001);
    let member2 = MemberId::for_local_test(10_002);
    let mut delta = Delta::default();
    delta.add_member(member1.clone(), 4);
    delta.add_kv(&member1, "key", "value", 5);
    let member_delta = delta.get(&member1).unwrap();
    assert_eq!(member_delta.max_version(), 5);
    assert_eq!(member_delta.reached_version(), 5);
    // 38 for the member op; 1 + 2 + 3 + 2 + 5 + 8 for the key-value op.
    assert_eq!(key_value_serialized_len(&member_delta.key_values[0]), 21);
    assert_eq!(member_delta.serialized_len(), 38 + 21);
    assert!(delta.get(&member2).is_none());
    delta.add_member(member2.clone(), 7);
    assert_eq!(delta.get(&member2).unwrap().max_version(), 0);
    assert_eq!(delta.get(&member2).unwrap().reached_version(), 7);
}

#[test]
fn an_unknown_tag_is_an_error() {
    let buf = [9u8];
    assert_eq!(
        Delta::deserialize(&mut &buf[..]).unwrap_err(),
        DeserializeError::UnknownDeltaTag(9)
    );
}

fn push_member(buf: &mut Vec<u8>, from: u64) {
    buf.push(TAG_MEMBER);
    MemberId::for_local_test(10_001).serialize(buf);
    from.serialize(buf);
}

fn push_kv(buf: &mut Vec<u8>, version: u64) {
    buf.push(TAG_KEY_VALUE);
    "k".serialize(buf);
    "v".serialize(buf);
    version.serialize(buf);
}

#[test]
fn a_key_value_needs_a_member() {
    let mut buf = Vec::new();
    push_kv(&mut buf, 1);
    assert_eq!(
        Delta::deserialize(&mut &buf[..]).unwrap_err(),
        DeserializeError::KeyValueWithoutMember
    );
}

#[test]
fn versions_have_to_increase() {
    let mut buf = Vec::new();
    push_member(&mut buf, 3);
    push_kv(&mut buf, 3);
    assert_eq!(
        Delta::deserialize(&mut &buf[..]).unwrap_err(),
        DeserializeError::VersionNotIncreasing
    );
    let mut buf = Vec::new();
    push_member(&mut buf, 3);
    push_kv(&mut buf, 5);
    push_kv(&mut buf, 4);
    assert_eq!(
        Delta::deserialize(&mut &buf[..]).unwrap_err(),
        DeserializeError::VersionNotIncreasing
    );
}

#[test]
fn a_member_may_appear_twice() {
    let mut buf = Vec::new();
    push_member(&mut buf, 0);
    push_kv(&mut buf, 1);
    push_member(&mut buf, 0);
    push_kv(&mut buf, 1);
    let delta = Delta::deserialize(&mut &buf[..]).unwrap();
    assert_eq!(delta.member_deltas.len(), 2);
    // The bytes are written back as they were.
    assert_eq!(delta.serialize_to_vec(), buf);
}

#[test]
fn a_delta_that_breaks_off_is_an_error() {
    let mut buf = Vec::new();
    push_member(&mut buf, 0);
    buf.pop();
    assert_eq!(
        Delta::deserialize(&mut &buf[..]).unwrap_err(),
        DeserializeError::BufferTooShort
    );
}
