use tchatche::digest::{Digest, MemberDigest};
use tchatche::serialize::{test_serdeser_aux, Deserializable, DeserializeError, Serializable};
use tchatche::types::{Heartbeat, MemberId};

#[test]
fn test_member_digest_serialization() {
    let member_digest = MemberDigest {
        heartbeat: Heartbeat(100u64),
        max_version: 3,
    };
    // 8 (heartbeat) + 8 (max_version)
    assert!(test_serdeser_aux(&member_digest, 16));
}

#[test]
fn test_digest_serialization() {
    let mut digest = Digest::default();
    let member1 = MemberId::for_local_test(10_001);
    let member2 = MemberId::for_local_test(10_002);
    digest.add_member(member1, Heartbeat(101), 11);
    digest.add_member(member2, Heartbeat(102), 12);
    let mut buf = Vec::new();
    digest.serialize(&mut buf);
    assert_eq!(buf.len(), digest.serialized_len());
    let digest_deser = Digest::deserialize(&mut &buf[..]).unwrap();
    assert_eq!(digest, digest_deser);
}

#[test]
fn digests_differ_by_their_entries() {
    let mut digest = Digest::default();
    digest.add_member(MemberId::for_local_test(1), Heartbeat(1), 1);
    let mut other = Digest::default();
    assert_ne!(digest, other);
    other.add_member(MemberId::for_local_test(1), Heartbeat(1), 2);
    assert_ne!(digest, other);
    other.add_member(MemberId::for_local_test(1), Heartbeat(1), 1);
    assert_eq!(digest, other);
    let mut third = Digest::default();
    third.add_member(MemberId::for_local_test(2), Heartbeat(1), 1);
    assert_ne!(digest, third);
}

#[test]
fn the_later_of_two_entries_stays() {
    let member = MemberId::for_local_test(10_001);
    let mut buf = 2u16.serialize_to_vec();
    member.serialize(&mut buf);
    MemberDigest { heartbeat: Heartbeat(1), max_version: 1 }.serialize(&mut buf);
    member.serialize(&mut buf);
    MemberDigest { heartbeat: Heartbeat(2), max_version: 5 }.serialize(&mut buf);
    let digest = Digest::deserialize(&mut &buf[..]).unwrap();
    assert_eq!(digest.member_digests.len(), 1);
    assert_eq!(digest.member_digests.get(&member).unwrap().max_version, 5);
}

#[test]
fn a_digest_with_missing_entries_is_an_error() {
    let mut buf = 1u16.serialize_to_vec();
    MemberId::for_local_test(10_001).serialize(&mut buf);
    assert_eq!(
        Digest::deserialize(&mut &buf[..]).unwrap_err(),
        DeserializeError::BufferTooShort
    );
}

#[test]
fn entries_are_in_ascending_order() {
    let mut digest = Digest::default();
    for port in [30_003, 10_001, 20_002] {
        digest.add_member(MemberId::for_local_test(port), Heartbeat(1), 0);
    }
    let ports: Vec<u16> = (0..digest.member_digests.len())
        .map(|i| digest.member_digests.key_at(i).advertise_port())
        .collect();
    assert_eq!(ports, vec![10_001, 20_002, 30_003]);
    digest.member_digests.remove(&MemberId::for_local_test(20_002));
    assert!(!digest.member_digests.contains_key(&MemberId::for_local_test(20_002)));
    assert_eq!(digest.member_digests.len(), 2);
}
