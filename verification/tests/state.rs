use tchatche::cluster::ClusterState;
use tchatche::delta::Delta;
use tchatche::digest::Digest;
use tchatche::ordered_set::OrderedSet;
use tchatche::serialize::Serializable;
use tchatche::staleness::{partial_delta, staleness_score, SortedStaleMembers, StaleMember};
use tchatche::state::MemberState;
use tchatche::types::{Heartbeat, MemberId};

fn test_cluster_state() -> ClusterState {
    ClusterState::with_seed_addrs(OrderedSet::new())
}

fn version_of(member: &MemberState, wanted: &str) -> u64 {
    member
        .stale_key_values(0)
        .into_iter()
        .find(|(key, _)| *key == wanted)
        .unwrap()
        .1
        .version
}

fn pairs(pairs: &[(&str, &str)]) -> Vec<(String, String)> {
    pairs
        .iter()
        .map(|(key, value)| (key.to_string(), value.to_string()))
        .collect()
}

#[test]
fn test_with_key_values_assigns_dense_versions() {
    let member = MemberState::with_key_values(
        MemberId::for_local_test(10_001),
        vec![
            ("key_b".to_string(), "2".to_string()),
            ("key_a".to_string(), "1".to_string()),
            ("key_c".to_string(), "3".to_string()),
        ],
    );
    assert_eq!(member.max_version(), 3);
    // Versions assigned in sorted key order.
    assert_eq!(version_of(&member, "key_a"), 1);
    assert_eq!(version_of(&member, "key_b"), 2);
    assert_eq!(version_of(&member, "key_c"), 3);
    assert_eq!(member.get("key_a"), Some("1"));
}

#[test]
fn test_apply_delta_extends_prefix() {
    let member1 = MemberId::for_local_test(10_001);
    let mut cluster_state = test_cluster_state();
    // Learn member1 exists (as the digest would).
    cluster_state.member_state_mut_or_init(&member1);

    let mut delta = Delta::default();
    delta.add_member(member1.clone(), 0);
    delta.add_kv(&member1, "key_a", "1", 1);
    delta.add_kv(&member1, "key_b", "2", 2);
    cluster_state.apply_delta(delta);

    let member_state = cluster_state.member_state(&member1).unwrap();
    assert_eq!(member_state.max_version(), 2);
    assert_eq!(member_state.get("key_a"), Some("1"));
    assert_eq!(member_state.get("key_b"), Some("2"));

    // A stale delta (already-held versions) is a no-op.
    let mut stale = Delta::default();
    stale.add_member(member1.clone(), 0);
    stale.add_kv(&member1, "key_a", "1", 1);
    cluster_state.apply_delta(stale);
    assert_eq!(
        cluster_state.member_state(&member1).unwrap().max_version(),
        2
    );
}

#[test]
fn test_compute_delta_is_contiguous_prefix() {
    let member1 = MemberId::for_local_test(10_001);
    let mut cluster_state = test_cluster_state();
    let self_state = MemberState::with_key_values(
        member1.clone(),
        vec![
            ("key_a".to_string(), "1".to_string()),
            ("key_b".to_string(), "2".to_string()),
            ("key_c".to_string(), "3".to_string()),
        ],
    );
    cluster_state.insert_self_member_state(self_state);

    // A peer that has nothing for member1 (max_version 0) should get all 3.
    let digest = Digest::default();
    let exclude = OrderedSet::new();
    let delta = cluster_state.compute_partial_delta_respecting_mtu(&digest, usize::MAX, &exclude);
    let member_delta = delta.get(&member1).unwrap();
    assert_eq!(member_delta.from_version_excluded, 0);
    assert_eq!(member_delta.key_values.len(), 3);
    // Increasing version order.
    assert_eq!(member_delta.key_values[0].version, 1);
    assert_eq!(member_delta.key_values[2].version, 3);
}

#[test]
fn the_last_value_of_a_key_wins() {
    let member = MemberState::with_key_values(
        MemberId::for_local_test(10_001),
        pairs(&[("b", "1"), ("a", "2"), ("b", "3")]),
    );
    assert_eq!(member.max_version(), 2);
    assert_eq!(member.num_key_values(), 2);
    assert_eq!(member.key_values(), vec![("a", "2"), ("b", "3")]);
    assert_eq!(member.get("c"), None);
    assert_eq!(member.heartbeat(), Heartbeat(0));
    assert_eq!(member.member_id().advertise_port(), 10_001);
}

#[test]
fn keys_are_ordered_by_their_bytes() {
    let member = MemberState::with_key_values(
        MemberId::for_local_test(10_001),
        pairs(&[("a", ""), ("Z", ""), ("\u{e9}", ""), ("aa", ""), ("", "")]),
    );
    let keys: Vec<&str> = member.key_values().into_iter().map(|pair| pair.0).collect();
    assert_eq!(keys, vec!["", "Z", "a", "aa", "\u{e9}"]);
}

#[test]
fn a_delta_past_the_prefix_is_ignored() {
    let member1 = MemberId::for_local_test(10_001);
    let mut state = MemberState::new(member1.clone());
    let mut delta = Delta::default();
    delta.add_member(member1.clone(), 2);
    delta.add_kv(&member1, "key_c", "3", 3);
    assert!(!state.apply_delta(&delta.member_deltas[0]));
    assert_eq!(state.max_version(), 0);
    assert_eq!(state.num_key_values(), 0);
}

#[test]
fn an_overlapping_delta_adds_what_is_new() {
    let member1 = MemberId::for_local_test(10_001);
    let mut state = MemberState::new(member1.clone());
    let mut first = Delta::default();
    first.add_member(member1.clone(), 0);
    first.add_kv(&member1, "a", "1", 1);
    first.add_kv(&member1, "b", "2", 2);
    assert!(state.apply_delta(&first.member_deltas[0]));
    let mut second = Delta::default();
    second.add_member(member1.clone(), 1);
    second.add_kv(&member1, "b", "other", 2);
    second.add_kv(&member1, "c", "3", 3);
    assert!(state.apply_delta(&second.member_deltas[0]));
    assert_eq!(state.get("b"), Some("2"));
    assert_eq!(state.get("c"), Some("3"));
    assert_eq!(state.max_version(), 3);
    // Once more changes nothing.
    assert!(!state.apply_delta(&second.member_deltas[0]));
    assert_eq!(state.clone().key_values(), state.key_values());
}

#[test]
fn a_delta_for_an_unknown_member_is_ignored() {
    let member1 = MemberId::for_local_test(10_001);
    let mut cluster_state = test_cluster_state();
    let mut delta = Delta::default();
    delta.add_member(member1.clone(), 0);
    delta.add_kv(&member1, "a", "1", 1);
    cluster_state.apply_delta(delta);
    assert!(cluster_state.member_state(&member1).is_none());
    assert!(cluster_state.members().is_empty());
}

#[test]
fn the_first_heartbeat_is_no_update() {
    let mut state = MemberState::new(MemberId::for_local_test(10_001));
    assert!(!state.try_set_heartbeat(Heartbeat(5)));
    assert_eq!(state.heartbeat(), Heartbeat(5));
    assert!(!state.try_set_heartbeat(Heartbeat(5)));
    assert!(!state.try_set_heartbeat(Heartbeat(4)));
    assert!(state.try_set_heartbeat(Heartbeat(6)));
    assert_eq!(state.heartbeat(), Heartbeat(6));
    state.inc_heartbeat();
    assert_eq!(state.digest().heartbeat, Heartbeat(7));
    assert_eq!(state.digest().max_version, 0);
}

fn cluster_of(members: &[(u16, usize)]) -> ClusterState {
    let mut cluster_state = test_cluster_state();
    for (port, count) in members {
        let key_values = (0..*count)
            .map(|i| (format!("key_{i:03}"), "v".to_string()))
            .collect();
        cluster_state.insert_self_member_state(MemberState::with_key_values(
            MemberId::for_local_test(*port),
            key_values,
        ));
    }
    cluster_state
}

fn ports(delta: &Delta) -> Vec<u16> {
    delta
        .member_deltas
        .iter()
        .map(|member_delta| member_delta.member_id.advertise_port())
        .collect()
}

#[test]
fn the_stalest_members_go_first() {
    let cluster_state = cluster_of(&[(1, 9), (2, 2), (3, 5), (4, 8), (5, 4)]);
    let mut digest = Digest::default();
    digest.add_member(MemberId::for_local_test(3), Heartbeat(1), 1);
    digest.add_member(MemberId::for_local_test(4), Heartbeat(1), 6);
    digest.add_member(MemberId::for_local_test(5), Heartbeat(1), 4);
    let delta = cluster_state.compute_partial_delta_respecting_mtu(
        &digest,
        usize::MAX,
        &OrderedSet::new(),
    );
    // Unknown members with few key-values, then known ones that lack many; member 5 is
    // up to date.
    assert_eq!(ports(&delta), vec![2, 1, 3, 4]);
    assert_eq!(delta.member_deltas[2].from_version_excluded, 1);
    let versions: Vec<u64> = delta.member_deltas[3]
        .key_values
        .iter()
        .map(|kv| kv.version)
        .collect();
    assert_eq!(versions, vec![7, 8]);
}

#[test]
fn equally_stale_members_are_shuffled() {
    let cluster_state = cluster_of(&[(1, 1), (2, 1), (3, 1), (4, 1), (5, 1), (6, 1)]);
    let mut orders = Vec::new();
    for _ in 0..200 {
        let delta = cluster_state.compute_partial_delta_respecting_mtu(
            &Digest::default(),
            usize::MAX,
            &OrderedSet::new(),
        );
        let order = ports(&delta);
        let mut sorted = order.clone();
        sorted.sort();
        assert_eq!(sorted, vec![1, 2, 3, 4, 5, 6]);
        orders.push(order);
    }
    assert!(orders.iter().any(|order| *order != orders[0]));
}

#[test]
fn excluded_members_are_not_shared() {
    let cluster_state = cluster_of(&[(1, 2), (2, 2)]);
    let mut exclude = OrderedSet::new();
    exclude.insert(MemberId::for_local_test(1));
    let delta = cluster_state.compute_partial_delta_respecting_mtu(
        &Digest::default(),
        usize::MAX,
        &exclude,
    );
    assert_eq!(ports(&delta), vec![2]);
    let digest = cluster_state.compute_digest(&exclude);
    assert_eq!(digest.member_digests.len(), 1);
    assert_eq!(
        digest
            .member_digests
            .get(&MemberId::for_local_test(2))
            .unwrap()
            .max_version,
        2
    );
}

#[test]
fn a_delta_is_cut_to_the_mtu() {
    let cluster_state = cluster_of(&[(10_001, 100)]);
    let delta = cluster_state.compute_partial_delta_respecting_mtu(
        &Digest::default(),
        200,
        &OrderedSet::new(),
    );
    // 38 bytes for the member, 1 + 2 + 7 + 2 + 1 + 8 for each key-value.
    assert_eq!(delta.member_deltas[0].key_values.len(), 7);
    assert_eq!(delta.serialized_len(), 38 + 7 * 21);
    assert_eq!(delta.member_deltas[0].max_version(), 7);
    // The next round continues.
    let mut digest = Digest::default();
    digest.add_member(MemberId::for_local_test(10_001), Heartbeat(1), 7);
    let next = cluster_state.compute_partial_delta_respecting_mtu(
        &digest,
        200,
        &OrderedSet::new(),
    );
    assert_eq!(next.member_deltas[0].from_version_excluded, 7);
    assert_eq!(next.member_deltas[0].key_values[0].version, 8);
}

#[test]
fn a_given_order_is_kept() {
    let id1 = MemberId::for_local_test(10_001);
    let id2 = MemberId::for_local_test(10_002);
    let state1 = MemberState::with_key_values(id1.clone(), pairs(&[("a", "1"), ("b", "2")]));
    let state2 = MemberState::with_key_values(id2.clone(), pairs(&[("c", "3")]));
    let order = vec![
        StaleMember { member_id: &id2, member_state: &state2, from_version_excluded: 0 },
        StaleMember { member_id: &id1, member_state: &state1, from_version_excluded: 1 },
    ];
    let delta = partial_delta(&order, usize::MAX);
    assert_eq!(ports(&delta), vec![10_002, 10_001]);
    assert_eq!(delta.member_deltas[1].key_values.len(), 1);
    assert_eq!(delta.member_deltas[1].key_values[0].version, 2);
    // 38 + 15 for the first member; the header of the second does not fit.
    let cut = partial_delta(&order, 38 + 15 + 37);
    assert_eq!(ports(&cut), vec![10_002]);
    assert_eq!(cut.serialized_len(), 38 + 15);
}

#[test]
fn key_values_come_out_in_version_order() {
    // Versions follow the order of arrival here, not the order of the keys.
    let member1 = MemberId::for_local_test(10_001);
    let mut state = MemberState::new(member1.clone());
    let mut delta = Delta::default();
    delta.add_member(member1.clone(), 0);
    delta.add_kv(&member1, "c", "1", 1);
    delta.add_kv(&member1, "a", "2", 2);
    delta.add_kv(&member1, "b", "3", 3);
    state.apply_delta(&delta.member_deltas[0]);
    let stale = StaleMember { member_id: &member1, member_state: &state, from_version_excluded: 0 };
    let keys: Vec<&str> = stale.stale_key_values().into_iter().map(|pair| pair.0).collect();
    assert_eq!(keys, vec!["c", "a", "b"]);
    let by_key: Vec<&str> = state.stale_key_values(1).into_iter().map(|pair| pair.0).collect();
    assert_eq!(by_key, vec!["a", "b"]);
}

#[test]
fn staleness_is_scored() {
    let id = MemberId::for_local_test(10_001);
    let state = MemberState::with_key_values(id.clone(), pairs(&[("a", "1"), ("b", "2")]));
    assert!(staleness_score(&state, 2).is_none());
    let known = staleness_score(&state, 1).unwrap();
    assert!(!known.is_unknown);
    assert_eq!(known.num_stale_key_values, 1);
    let unknown = staleness_score(&state, 0).unwrap();
    assert!(unknown.is_unknown);
    assert_eq!(unknown.max_version, 2);
    assert_eq!(unknown.num_stale_key_values, 2);
    let mut sorted = SortedStaleMembers::new();
    sorted.offer(&id, &state, 2);
    assert!(sorted.into_iter().is_empty());
}

#[test]
fn members_can_be_removed() {
    let mut cluster_state = cluster_of(&[(1, 1), (2, 1)]);
    cluster_state.remove_member(&MemberId::for_local_test(1));
    assert_eq!(cluster_state.members(), vec![&MemberId::for_local_test(2)]);
    assert_eq!(cluster_state.member_states().len(), 1);
    assert_eq!(cluster_state.seed_addrs().len(), 0);
}

#[test]
fn late_and_repeated_deltas_leave_a_prefix() {
    let member1 = MemberId::for_local_test(10_001);
    let source = cluster_of(&[(10_001, 6)]);
    let piece = |from: u64, mtu: usize| {
        let mut digest = Digest::default();
        digest.add_member(member1.clone(), Heartbeat(1), from);
        source.compute_partial_delta_respecting_mtu(&digest, mtu, &OrderedSet::new())
    };
    let mut held = test_cluster_state();
    held.member_state_mut_or_init(&member1);
    // 38 bytes for the member, 21 for each key-value. Each piece: where it continues from,
    // its key-values, and the version held after it.
    for (from, count, expected) in [(3, 2, 0), (0, 2, 2), (0, 2, 2), (1, 2, 3), (3, 3, 6), (0, 1, 6)] {
        let delta = piece(from, 38 + count * 21);
        assert_eq!(delta.member_deltas[0].key_values.len(), count);
        held.apply_delta(delta);
        let state = held.member_state(&member1).unwrap();
        assert_eq!(state.max_version(), expected);
        assert_eq!(state.num_key_values() as u64, expected);
    }
}

#[test]
fn a_delta_changes_each_member_on_its_own() {
    let member1 = MemberId::for_local_test(1);
    let member2 = MemberId::for_local_test(2);
    let mut held = test_cluster_state();
    held.member_state_mut_or_init(&member1);
    held.member_state_mut_or_init(&member2);
    held.member_state_mut_or_init(&MemberId::for_local_test(3));
    for _ in 0..2 {
        let mut delta = Delta::default();
        delta.add_member(member1.clone(), 0);
        delta.add_kv(&member1, "a", "1", 1);
        delta.add_member(member2.clone(), 4);
        delta.add_kv(&member2, "b", "5", 5);
        held.apply_delta(delta);
        assert_eq!(held.member_state(&member1).unwrap().max_version(), 1);
        assert_eq!(held.member_state(&member2).unwrap().max_version(), 0);
        assert_eq!(
            held.member_state(&MemberId::for_local_test(3))
                .unwrap()
                .max_version(),
            0
        );
    }
}
