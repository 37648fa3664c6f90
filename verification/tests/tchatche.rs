use tchatche::delta::Delta;
use tchatche::digest::Digest;
use tchatche::message::{Message, MessageKind};
use tchatche::ordered_set::OrderedSet;
use tchatche::serialize::{Deserializable, Serializable};
use tchatche::state::MemberState;
use tchatche::tchatche::MAX_UDP_DATAGRAM_PAYLOAD_SIZE;
use tchatche::types::{Heartbeat, IpAddr, MemberId, SocketAddr};
use tchatche::{Config, Tchatche};

fn empty_seeds() -> OrderedSet<SocketAddr> {
    OrderedSet::new()
}

fn run_handshake(initiator: &mut Tchatche, peer: &mut Tchatche) {
    let syn = initiator.create_syn_message();
    let syn_ack = peer.process_message(syn).unwrap();
    let ack = initiator.process_message(syn_ack).unwrap();
    assert!(peer.process_message(ack).is_none());
}

fn assert_kv_in_sync(lhs: &MemberState, rhs: &MemberState) {
    assert_eq!(lhs.num_key_values(), rhs.num_key_values());
    for (key, value) in lhs.key_values() {
        assert_eq!(rhs.get(key), Some(value));
    }
}

#[test]
fn test_handshake_syncs_immutable_kvs() {
    let mut member1 = Tchatche::new(
        Config::for_test(10_001),
        empty_seeds(),
        vec![
            ("key1a".to_string(), "1".to_string()),
            ("key2a".to_string(), "2".to_string()),
        ],
    );
    let mut member2 = Tchatche::new(
        Config::for_test(10_002),
        empty_seeds(),
        vec![
            ("key1b".to_string(), "1".to_string()),
            ("key2b".to_string(), "2".to_string()),
        ],
    );
    run_handshake(&mut member1, &mut member2);

    let id1 = member1.self_id().clone();
    let id2 = member2.self_id().clone();
    // Each member now knows both members' immutable KVs.
    assert_kv_in_sync(
        member1.member_state(&id1).unwrap(),
        member2.member_state(&id1).unwrap(),
    );
    assert_kv_in_sync(
        member1.member_state(&id2).unwrap(),
        member2.member_state(&id2).unwrap(),
    );
    assert_eq!(member2.member_state(&id1).unwrap().get("key1a"), Some("1"));
    assert_eq!(member1.member_state(&id2).unwrap().get("key2b"), Some("2"));

    // A second handshake is a no-op (already converged).
    run_handshake(&mut member1, &mut member2);
    assert_eq!(member1.member_state(&id2).unwrap().max_version(), 2);
}

#[test]
fn test_wrong_cluster_id_is_dropped() {
    let mut member1 = Tchatche::new(Config::for_test(10_001), empty_seeds(), vec![]);
    let foreign = Message::new(
        "other-cluster".to_string(),
        MessageKind::Syn {
            digest: Digest::default(),
        },
    );
    // A datagram from a foreign cluster is dropped (no reply).
    assert!(member1.process_message(foreign).is_none());
    // Nor does it count as a sign of life.
    let id1 = member1.self_id().clone();
    assert_eq!(member1.member_state(&id1).unwrap().heartbeat(), Heartbeat(1));
}

fn member_with(port: u16, count: usize) -> Tchatche {
    let key_values = (0..count)
        .map(|i| (format!("key_{i:06}"), "x".repeat(100)))
        .collect();
    Tchatche::new(Config::for_test(port), empty_seeds(), key_values)
}

#[test]
fn a_new_member_knows_itself() {
    let member = member_with(10_001, 2);
    assert_eq!(member.cluster_id(), "default-cluster");
    assert_eq!(member.self_id(), &MemberId::for_local_test(10_001));
    assert_eq!(member.member_states().len(), 1);
    assert_eq!(member.live_members(), vec![member.self_id()]);
    assert!(member.dead_members().is_empty());
    assert_eq!(member.seed_members().len(), 0);
    // 2 + 1 + (2 + 15) + 1
    assert_eq!(member.header_overhead(), 21);
    let own = member.member_state(member.self_id()).unwrap();
    assert_eq!(own.heartbeat(), Heartbeat(1));
    assert_eq!(own.max_version(), 2);
}

#[test]
fn every_message_bumps_the_own_heartbeat() {
    let mut member = member_with(10_001, 0);
    let id = member.self_id().clone();
    let ack = Message::new(
        "default-cluster".to_string(),
        MessageKind::Ack {
            delta: Delta::default(),
        },
    );
    assert!(member.process_message(ack).is_none());
    assert_eq!(member.member_state(&id).unwrap().heartbeat(), Heartbeat(2));
    member.update_self_heartbeat();
    assert_eq!(member.member_state(&id).unwrap().heartbeat(), Heartbeat(3));
}

#[test]
fn replies_fit_a_datagram_and_converge_round_by_round() {
    let mut big = member_with(10_001, 2_000);
    let mut small = member_with(10_002, 1);
    let id = big.self_id().clone();
    let mut held = 0;
    for _ in 0..10 {
        let syn_ack = big.process_message(small.create_syn_message()).unwrap();
        let bytes = syn_ack.serialize_to_vec();
        assert_eq!(bytes.len(), syn_ack.serialized_len());
        assert!(bytes.len() <= MAX_UDP_DATAGRAM_PAYLOAD_SIZE);
        let received = Message::deserialize(&mut &bytes[..]).unwrap();
        assert_eq!(received, syn_ack);
        small.process_message(received).unwrap();
        let now = small.member_state(&id).unwrap().max_version();
        assert!(now >= held);
        assert_eq!(now, small.member_state(&id).unwrap().num_key_values() as u64);
        held = now;
    }
    assert_eq!(held, 2_000);
}

#[test]
fn members_are_learned_from_digests() {
    let mut member1 = member_with(10_001, 1);
    let mut member2 = member_with(10_002, 1);
    let mut member3 = member_with(10_003, 1);
    run_handshake(&mut member1, &mut member2);
    run_handshake(&mut member3, &mut member2);
    let id1 = MemberId::for_local_test(10_001);
    assert_eq!(member3.member_state(&id1).unwrap().max_version(), 1);
    assert_eq!(member3.member_states().len(), 3);
}

#[test]
fn later_heartbeats_are_reported() {
    let mut member1 = member_with(10_001, 0);
    let mut member2 = member_with(10_002, 0);
    let id1 = member1.self_id().clone();
    member2.process_message(member1.create_syn_message());
    // The first heartbeat of a member only makes it known.
    assert!(member2.take_reported_heartbeats().is_empty());
    member1.update_self_heartbeat();
    member2.process_message(member1.create_syn_message());
    assert_eq!(member2.take_reported_heartbeats(), vec![id1.clone()]);
    assert!(member2.take_reported_heartbeats().is_empty());
    // An old digest brings no news.
    let mut stale = Digest::default();
    stale.add_member(id1.clone(), Heartbeat(1), 0);
    member2.process_message(Message::new(
        "default-cluster".to_string(),
        MessageKind::Syn { digest: stale },
    ));
    assert!(member2.take_reported_heartbeats().is_empty());
    assert_eq!(member2.member_state(&id1).unwrap().heartbeat(), Heartbeat(2));
}

#[test]
fn a_digest_does_not_change_what_a_member_knows_of_itself() {
    let mut member = member_with(10_001, 1);
    let id = member.self_id().clone();
    let mut digest = Digest::default();
    digest.add_member(id.clone(), Heartbeat(500), 9);
    let reply = member.process_message(Message::new(
        "default-cluster".to_string(),
        MessageKind::Syn { digest },
    ));
    assert_eq!(member.member_state(&id).unwrap().heartbeat(), Heartbeat(2));
    match reply.unwrap().kind {
        MessageKind::SynAck { delta, .. } => assert!(delta.member_deltas.is_empty()),
        _ => panic!("not a SynAck"),
    }
}

const SECOND: u128 = 1_000_000_000;

#[test]
fn members_live_die_and_are_forgotten() {
    let mut member1 = member_with(10_001, 1);
    let mut member2 = member_with(10_002, 1);
    let id2 = member2.self_id().clone();
    run_handshake(&mut member1, &mut member2);

    // Oneself is news in the first round.
    let mut available = OrderedSet::new();
    let update = member1.update_members_liveness(&available, SECOND);
    assert_eq!(update.live_members.unwrap().len(), 1);
    // Without any arrival recorded the other member is not available.
    assert_eq!(member1.dead_members(), vec![&id2]);

    // It becomes available.
    member1.record_heartbeat(&id2, 2 * SECOND, true);
    assert!(member1.sample(&id2).is_some());
    available.insert(id2.clone());
    let update = member1.update_members_liveness(&available, 2 * SECOND);
    let live = update.live_members.unwrap();
    assert_eq!(live.len(), 2);
    assert_eq!(live.get(&id2).unwrap().max_version(), 1);
    assert_eq!(member1.live_members(), vec![member1.self_id(), &id2]);
    assert!(member1.dead_members().is_empty());

    // Nothing changes.
    let update = member1.update_members_liveness(&available, 3 * SECOND);
    assert!(update.live_members.is_none());
    assert!(update.forgotten.is_empty());

    // It falls silent: it is dead, and no longer shared.
    let update = member1.update_members_liveness(&OrderedSet::new(), 4 * SECOND);
    assert_eq!(update.live_members.unwrap().len(), 1);
    assert_eq!(member1.dead_members(), vec![&id2]);
    match member1.create_syn_message().kind {
        MessageKind::Syn { digest } => {
            assert_eq!(digest.member_digests.len(), 1);
            assert!(!digest.member_digests.contains_key(&id2));
        }
        _ => panic!("not a Syn"),
    }

    // It is retained until the quarantine is over.
    let update = member1.update_members_liveness(&OrderedSet::new(), 10_004 * SECOND);
    assert!(update.forgotten.is_empty());
    assert!(member1.member_state(&id2).is_some());
    let update = member1.update_members_liveness(&OrderedSet::new(), 10_004 * SECOND + 1);
    assert_eq!(update.forgotten, vec![id2.clone()]);
    assert!(member1.member_state(&id2).is_none());
    assert!(member1.dead_members().is_empty());
    assert!(member1.sample(&id2).is_none());
    assert!(member1.member_state(member1.self_id()).is_some());
}

#[test]
fn more_key_values_are_news_too() {
    let mut member1 = member_with(10_001, 1);
    let mut member2 = member_with(10_002, 1);
    let id2 = member2.self_id().clone();
    let syn = member2.create_syn_message();
    member1.process_message(syn);
    member1.record_heartbeat(&id2, SECOND, true);
    let mut available = OrderedSet::new();
    available.insert(id2.clone());
    let update = member1.update_members_liveness(&available, SECOND);
    assert_eq!(update.live_members.unwrap().get(&id2).unwrap().max_version(), 0);
    run_handshake(&mut member1, &mut member2);
    let update = member1.update_members_liveness(&available, 2 * SECOND);
    assert_eq!(update.live_members.unwrap().get(&id2).unwrap().max_version(), 1);
}

#[test]
fn seeds_can_be_replaced() {
    let mut member = member_with(10_001, 0);
    let seed = SocketAddr::new(IpAddr::V4([10, 0, 0, 1]), 80);
    let mut seeds = OrderedSet::new();
    seeds.insert(seed);
    member.set_seed_addrs(seeds);
    assert_eq!(member.seed_members().len(), 1);
    assert!(member.cluster_state().seed_addrs().contains(&seed));
}

#[test]
fn the_test_configuration_is_local() {
    let config = Config::for_test(10_001);
    assert_eq!(config.listen_addr, config.member_id.gossip_addr);
    assert_eq!(config.gossip_interval, SECOND / 20);
    assert_eq!(config.quarantine_period, 10_000 * SECOND);
    assert_eq!(config.max_sample_size, 1_000);
    assert!(config.seed_members.is_empty());
}

#[test]
fn dead_members_are_not_in_replies() {
    let mut member1 = member_with(10_001, 1);
    let mut member2 = member_with(10_002, 1);
    let id2 = member2.self_id().clone();
    run_handshake(&mut member1, &mut member2);
    member1.update_members_liveness(&OrderedSet::new(), SECOND);
    assert_eq!(member1.dead_members(), vec![&id2]);
    let mut newcomer = member_with(10_003, 0);
    let syn_ack = member1.process_message(newcomer.create_syn_message()).unwrap();
    match &syn_ack.kind {
        MessageKind::SynAck { digest, delta } => {
            assert!(!digest.member_digests.contains_key(&id2));
            assert!(delta.get(&id2).is_none());
            assert!(delta.get(member1.self_id()).is_some());
        }
        _ => panic!("not a SynAck"),
    }
    newcomer.process_message(syn_ack).unwrap();
    assert!(newcomer.member_state(&id2).is_none());
}
