use tchatche::message::MessageKind;
use tchatche::ordered_set::OrderedSet;
use tchatche::server::{
    dead_member_odds, gossip_pools, is_drawn, next_step, seed_member_odds,
    select_dead_member_to_gossip_with, select_members_for_gossip,
    select_seed_member_to_gossip_with, start_round, Command, GossipPools, Odds, Seeds, ServerEvent, ServerStep,
};
use tchatche::types::{Heartbeat, IpAddr, MemberId, SocketAddr};
use tchatche::{Config, Tchatche};

fn addr(port: u16) -> SocketAddr {
    SocketAddr::new(IpAddr::V4([127, 0, 0, 1]), port)
}

fn set_of(ports: &[u16]) -> OrderedSet<SocketAddr> {
    let mut set = OrderedSet::new();
    for port in ports {
        set.insert(addr(*port));
    }
    set
}

fn ports_of(set: &OrderedSet<SocketAddr>) -> Vec<u16> {
    (0..set.len()).map(|i| set.item_at(i).port()).collect()
}

fn pools(peers: &[u16], live: &[u16], dead: &[u16], seeds: &[u16]) -> GossipPools {
    GossipPools {
        peer_members: set_of(peers),
        live_members: set_of(live),
        dead_members: set_of(dead),
        seed_members: set_of(seeds),
    }
}

#[test]
fn three_live_members_are_picked() {
    let pools = pools(&[1, 2, 3, 4, 5, 6], &[1, 2, 3, 4, 5], &[], &[]);
    let mut seen = OrderedSet::new();
    let mut selections = Vec::new();
    for _ in 0..200 {
        let (members, dead, seed) = select_members_for_gossip(&pools, true, true);
        assert_eq!(members.len(), 3);
        assert_eq!(dead, None);
        assert_eq!(seed, None);
        let picked: OrderedSet<SocketAddr> =
            set_of(&members.iter().map(|addr| addr.port()).collect::<Vec<u16>>());
        assert_eq!(picked.len(), 3);
        for member in &members {
            assert!(pools.live_members.contains(member));
            seen.insert(*member);
        }
        selections.push(members);
    }
    assert_eq!(seen.len(), 5);
    assert!(selections.iter().any(|members| *members != selections[0]));
}

#[test]
fn peers_are_picked_while_nobody_is_live() {
    let pools = pools(&[1, 2], &[], &[1, 2], &[]);
    let (members, dead, _) = select_members_for_gossip(&pools, false, false);
    let mut ports: Vec<u16> = members.iter().map(|addr| addr.port()).collect();
    ports.sort();
    assert_eq!(ports, vec![1, 2]);
    // More members are dead than live.
    assert!(pools.dead_members.contains(&dead.unwrap()));
}

#[test]
fn dead_members_are_picked_by_the_draw_or_when_they_prevail() {
    let even = pools(&[1, 2], &[1], &[2], &[]);
    assert_eq!(select_members_for_gossip(&even, false, false).1, None);
    assert_eq!(select_members_for_gossip(&even, true, false).1, Some(addr(2)));
    let prevailing = pools(&[1, 2, 3], &[1], &[2, 3], &[]);
    for drawn in [false, true] {
        let (_, dead, _) = select_members_for_gossip(&prevailing, drawn, false);
        assert!(prevailing.dead_members.contains(&dead.unwrap()));
    }
    assert_eq!(
        select_dead_member_to_gossip_with(&prevailing.dead_members, 2, 2, false),
        None
    );
}

#[test]
fn certain_draws_are_won() {
    assert!(is_drawn(Odds { favorable: 3, total: 3 }, false));
    assert!(!is_drawn(Odds { favorable: 2, total: 3 }, false));
    assert!(is_drawn(Odds { favorable: 0, total: 3 }, true));
}

#[test]
fn seeds_are_picked_when_called_for() {
    // Nobody is live: a seed in any case.
    let (_, _, seed) = select_members_for_gossip(&pools(&[], &[], &[], &[9]), false, false);
    assert_eq!(seed, Some(addr(9)));
    // The members picked hold a seed, and enough members are live: none.
    let (_, _, seed) = select_members_for_gossip(&pools(&[1], &[1], &[], &[1]), false, true);
    assert_eq!(seed, None);
    // They hold none: the draw decides.
    let (_, _, seed) = select_members_for_gossip(&pools(&[1], &[1], &[], &[9]), false, true);
    assert_eq!(seed, Some(addr(9)));
    let (_, _, seed) = select_members_for_gossip(&pools(&[1], &[1], &[], &[9]), false, false);
    assert_eq!(seed, None);
    // Fewer members are live than there are seeds: the draw decides.
    let few = pools(&[1, 2], &[1], &[2], &[1, 9]);
    assert!(select_members_for_gossip(&few, false, true).2.is_some());
    assert_eq!(select_members_for_gossip(&few, false, false).2, None);
    // There are more seeds than live and dead members: a seed in any case.
    let many = pools(&[1, 2], &[1], &[2], &[1, 8, 9]);
    assert!(select_members_for_gossip(&many, false, false).2.is_some());
    assert_eq!(
        select_seed_member_to_gossip_with(&many.seed_members, 2, 1, false),
        None
    );
}

#[test]
fn seeds_are_picked_by_chance() {
    let pools = pools(&[], &[], &[], &[1, 2, 3, 4]);
    let mut seen = OrderedSet::new();
    for _ in 0..300 {
        let (_, _, seed) = select_members_for_gossip(&pools, false, false);
        seen.insert(seed.unwrap());
    }
    assert_eq!(ports_of(&seen), vec![1, 2, 3, 4]);
}

#[test]
fn odds_follow_the_counts() {
    assert_eq!(dead_member_odds(4, 2), Odds { favorable: 2, total: 5 });
    assert_eq!(seed_member_odds(3, 4, 2), Odds { favorable: 3, total: 7 });
    assert_eq!(
        seed_member_odds(0, usize::MAX, usize::MAX).total,
        2 * (usize::MAX as u128) + 1
    );
}

fn member(port: u16, seeds: &[u16]) -> Tchatche {
    Tchatche::new(Config::for_test(port), set_of(seeds), vec![])
}

fn meet(initiator: &mut Tchatche, peer: &mut Tchatche) {
    let syn = initiator.create_syn_message();
    let syn_ack = peer.process_message(syn).unwrap();
    let ack = initiator.process_message(syn_ack).unwrap();
    assert!(peer.process_message(ack).is_none());
}

#[test]
fn a_member_is_not_in_its_own_pools() {
    let mut member1 = member(10_001, &[10_001, 10_009]);
    let mut member2 = member(10_002, &[]);
    let mut member3 = member(10_003, &[]);
    meet(&mut member2, &mut member3);
    meet(&mut member1, &mut member2);
    let id2 = MemberId::for_local_test(10_002);
    member1.record_heartbeat(&id2, 1, true);
    let mut available = OrderedSet::new();
    available.insert(id2);
    member1.update_members_liveness(&available, 1);
    let pools = gossip_pools(&member1);
    assert_eq!(ports_of(&pools.peer_members), vec![10_002, 10_003]);
    assert_eq!(ports_of(&pools.live_members), vec![10_002]);
    assert_eq!(ports_of(&pools.dead_members), vec![10_003]);
    assert_eq!(ports_of(&pools.seed_members), vec![10_009]);
}

#[test]
fn a_round_bumps_the_heartbeat() {
    let mut member1 = member(10_001, &[10_009]);
    let pools = gossip_pools(&member1);
    let round = start_round(&mut member1, &pools, true, false);
    assert!(round.members.is_empty());
    assert_eq!(round.dead_member, None);
    assert_eq!(round.seed_member, Some(addr(10_009)));
    let own = member1.member_state(member1.self_id()).unwrap();
    assert_eq!(own.heartbeat(), Heartbeat(2));
}

#[test]
fn events_lead_to_steps() {
    let mut member1 = member(10_001, &[]);
    let mut member2 = member(10_002, &[]);
    let syn = match next_step(
        &mut member1,
        ServerEvent::Command(Some(Command::Gossip(addr(10_002)))),
    ) {
        ServerStep::Send { to_addr, message } => {
            assert_eq!(to_addr, addr(10_002));
            message
        }
        _ => panic!("nothing sent"),
    };
    let reply = next_step(
        &mut member2,
        ServerEvent::Received { from_addr: addr(10_001), message: syn },
    );
    match reply {
        ServerStep::Send { to_addr, message } => {
            assert_eq!(to_addr, addr(10_001));
            assert!(matches!(message.kind, MessageKind::SynAck { .. }));
        }
        _ => panic!("nothing sent"),
    }
    assert!(matches!(
        next_step(&mut member1, ServerEvent::ReceiveFailed),
        ServerStep::Fail
    ));
    assert!(matches!(next_step(&mut member1, ServerEvent::Tick), ServerStep::GossipRound));
    assert!(matches!(
        next_step(&mut member1, ServerEvent::Command(Some(Command::Shutdown))),
        ServerStep::Stop
    ));
    assert!(matches!(
        next_step(&mut member1, ServerEvent::Command(None)),
        ServerStep::Stop
    ));
}

#[test]
fn a_message_of_another_cluster_is_not_answered() {
    let mut config = Config::for_test(10_001);
    config.cluster_id = "other-cluster".to_string();
    let other = Tchatche::new(config, OrderedSet::new(), vec![]);
    let mut member2 = member(10_002, &[]);
    let step = next_step(
        &mut member2,
        ServerEvent::Received {
            from_addr: addr(10_001),
            message: other.create_syn_message(),
        },
    );
    assert!(matches!(step, ServerStep::Wait));
    assert_eq!(member2.member_states().len(), 1);
}

#[test]
fn seeds_are_split_by_kind() {
    let mut seeds = Seeds::new();
    seeds.add("127.0.0.1:1", Some(addr(1)));
    assert!(!seeds.require_dns());
    seeds.add("host-b:2", None);
    seeds.add("host-a:2", None);
    seeds.add("host-b:2", None);
    assert!(seeds.require_dns());
    assert_eq!(seeds.hosts(), vec!["host-a:2", "host-b:2"]);
    assert_eq!(ports_of(&seeds.addrs(&vec![])), vec![1]);
    assert_eq!(ports_of(&seeds.addrs(&vec![addr(7), addr(1)])), vec![1, 7]);
}
