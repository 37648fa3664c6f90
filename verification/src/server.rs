//! Whom to gossip with, and what the server does next.
use crate::failure_detector::ref_views;
use crate::message::Message;
use crate::order::OrderedKey;
use crate::ordered_set::OrderedSet;
use crate::random::{pick_one, sample};
use crate::tchatche::{lemma_all_listed, lemma_take_to_set, Tchatche, TchatcheView};
use crate::text::{byte_string_from, byte_string_str};
use crate::types::{same_member, MemberId, MemberIdView, SocketAddr};
use bytestring::ByteString;
use vstd::prelude::*;

verus! {

/// Number of members picked for random gossip each round.
pub const GOSSIP_COUNT: usize = 3;

/// The addresses that a gossip round picks from.
#[derive(Debug)]
pub struct GossipPools {
    /// All known members but oneself.
    pub peer_members: OrderedSet<SocketAddr>,
    /// The live members but oneself.
    pub live_members: OrderedSet<SocketAddr>,
    /// The dead members.
    pub dead_members: OrderedSet<SocketAddr>,
    /// The seeds but oneself.
    pub seed_members: OrderedSet<SocketAddr>,
}

/// The addresses of some members.
pub open spec fn addrs_of(ids: Set<MemberIdView>) -> Set<SocketAddr> {
    Set::new(
        |addr: SocketAddr|
            exists|id: MemberIdView| #[trigger] ids.contains(id) && id.gossip_addr == addr,
    )
}

impl GossipPools {
    pub open spec fn wf(&self) -> bool {
        &&& self.peer_members.wf()
        &&& self.live_members.wf()
        &&& self.dead_members.wf()
        &&& self.seed_members.wf()
    }

    /// The addresses that a member picks from.
    pub open spec fn of(&self, member: TchatcheView) -> bool {
        &&& self.peer_members@ == addrs_of(member.states.dom().remove(member.self_id))
        &&& self.live_members@ == addrs_of(member.detector.live)
        &&& self.dead_members@ == addrs_of(member.dead())
        &&& self.seed_members@ == member.seeds.remove(member.self_id.gossip_addr)
    }
}

/// The addresses of all members of a list but one.
fn addrs_but(members: &Vec<&MemberId>, excluded: &MemberId) -> (addrs: OrderedSet<SocketAddr>)
    ensures
        addrs.wf(),
        addrs@ == addrs_of(ref_views(members@).to_set().remove(excluded@)),
{
    let ghost ids = ref_views(members@);
    let mut addrs: OrderedSet<SocketAddr> = OrderedSet::new();
    let len = members.len();
    let mut i: usize = 0;
    while i < len
        invariant
            i <= len,
            len == members@.len(),
            ids == ref_views(members@),
            addrs.wf(),
            forall|addr: SocketAddr| #[trigger]
                addrs@.contains(addr) <==> exists|j: int|
                    0 <= j < i && (#[trigger] ids[j]) != excluded@ && ids[j].gossip_addr == addr,
        decreases len - i,
    {
        let ghost before = addrs@;
        let member_id = members[i];
        assert(ids[i as int] == member_id@);
        if !same_member(member_id, excluded) {
            addrs.insert(member_id.gossip_addr);
        }
        proof {
            assert forall|addr: SocketAddr| #[trigger]
                addrs@.contains(addr) <==> exists|j: int|
                    0 <= j < i + 1 && (#[trigger] ids[j]) != excluded@ && ids[j].gossip_addr
                        == addr by {
                if before.contains(addr) {
                    let j = choose|j: int|
                        0 <= j < i && (#[trigger] ids[j]) != excluded@ && ids[j].gossip_addr
                            == addr;
                    assert(ids[j].gossip_addr == addr);
                }
                if addrs@.contains(addr) && !before.contains(addr) {
                    assert(ids[i as int].gossip_addr == addr);
                }
            }
        }
        i = i + 1;
    }
    proof {
        let others = ids.to_set().remove(excluded@);
        assert forall|addr: SocketAddr| addrs@.contains(addr) <==> addrs_of(others).contains(
            addr,
        ) by {
            if addrs@.contains(addr) {
                let j = choose|j: int|
                    0 <= j < len && (#[trigger] ids[j]) != excluded@ && ids[j].gossip_addr == addr;
                assert(others.contains(ids[j]));
            }
            if addrs_of(others).contains(addr) {
                let id = choose|id: MemberIdView| #[trigger]
                    others.contains(id) && id.gossip_addr == addr;
                let j = choose|j: int| 0 <= j < ids.len() && ids[j] == id;
                assert(ids[j] != excluded@ && ids[j].gossip_addr == addr);
            }
        }
        assert(addrs@ =~= addrs_of(others));
    }
    addrs
}

/// The addresses that a member's next gossip round picks from.
pub fn gossip_pools(tchatche: &Tchatche) -> (pools: GossipPools)
    requires
        tchatche.wf(),
    ensures
        pools.wf(),
        pools.of(tchatche@),
{
    let self_id = tchatche.self_id();
    let members = tchatche.cluster_state().members();
    let live = tchatche.live_members();
    let dead = tchatche.dead_members();
    proof {
        let member = tchatche@;
        lemma_all_listed(ref_views(members@), member.states.dom());
        let ids = ref_views(live@);
        assert(ids.to_set().remove(member.self_id) =~= member.detector.live) by {
            assert forall|id: MemberIdView| ids.to_set().remove(member.self_id).contains(
                id,
            ) <==> member.detector.live.contains(id) by {
                if ids.to_set().remove(member.self_id).contains(id) {
                    let j = choose|j: int| 0 <= j < ids.len() && ids[j] == id;
                    assert(ids.skip(1)[j - 1] == id);
                    assert(ids.skip(1).to_set().contains(id));
                }
                if member.detector.live.contains(id) {
                    assert(ids.skip(1).to_set().contains(id));
                    let j = choose|j: int| 0 <= j < ids.skip(1).len() && ids.skip(1)[j] == id;
                    assert(ids[j + 1] == id);
                }
            }
        }
        assert(member.dead().remove(member.self_id) =~= member.dead());
    }
    let peer_members = addrs_but(&members, self_id);
    let live_members = addrs_but(&live, self_id);
    let dead_members = addrs_but(&dead, self_id);
    let mut seed_members = tchatche.seed_members();
    seed_members.remove(&self_id.gossip_addr);
    GossipPools { peer_members, live_members, dead_members, seed_members }
}

/// The odds of a draw: `favorable` against `total`.
#[derive(Debug, Clone, Copy, PartialEq, Eq, Structural)]
pub struct Odds {
    pub favorable: u128,
    pub total: u128,
}

/// The odds of gossiping with a dead member: the more dead members there are per live one,
/// the likelier.
pub fn dead_member_odds(live_members_count: usize, dead_members_count: usize) -> (odds: Odds)
    ensures
        odds.favorable == dead_members_count,
        odds.total == live_members_count + 1,
{
    Odds {
        favorable: dead_members_count as u128,
        total: live_members_count as u128 + 1,
    }
}

/// The odds of gossiping with a seed: the more seeds there are per known member, the
/// likelier.
pub fn seed_member_odds(
    seed_members_count: usize,
    live_members_count: usize,
    dead_members_count: usize,
) -> (odds: Odds)
    ensures
        odds.favorable == seed_members_count,
        odds.total == live_members_count + dead_members_count + 1,
{
    Odds {
        favorable: seed_members_count as u128,
        total: live_members_count as u128 + dead_members_count as u128 + 1,
    }
}

/// Whether a draw is won. One that is held against odds of at least one is won in any case.
pub fn is_drawn(odds: Odds, drawn: bool) -> (won: bool)
    ensures
        won == (drawn || odds.favorable >= odds.total),
{
    drawn || odds.favorable >= odds.total
}

/// The items of a set, in ascending order.
fn listed(addrs: &OrderedSet<SocketAddr>) -> (list: Vec<SocketAddr>)
    requires
        addrs.wf(),
    ensures
        list@.len() == addrs@.len(),
        list@.no_duplicates(),
        forall|addr: SocketAddr| #[trigger] list@.contains(addr) <==> addrs@.contains(addr),
{
    let mut list: Vec<SocketAddr> = Vec::new();
    let len = addrs.len();
    let mut i: usize = 0;
    while i < len
        invariant
            i <= len,
            len == addrs.items().len(),
            list@.len() == i,
            forall|j: int| 0 <= j < i ==> #[trigger] list@[j] == addrs.items()[j],
        decreases len - i,
    {
        list.push(*addrs.item_at(i));
        i = i + 1;
    }
    proof {
        addrs.lemma_items();
        let items = addrs.items();
        assert forall|addr: SocketAddr| #[trigger] list@.contains(addr) <==> addrs@.contains(
            addr,
        ) by {
            if list@.contains(addr) {
                let j = choose|j: int| 0 <= j < list@.len() && list@[j] == addr;
                assert(addrs@.contains(items[j].key()));
            }
            if addrs@.contains(addr) {
                let j = choose|j: int| 0 <= j < items.len() && #[trigger] items[j].key() == addr;
                assert(list@[j] == addr);
            }
        }
        assert forall|i: int, j: int| 0 <= i < j < list@.len() implies list@[i] != list@[j] by {
            assert(SocketAddr::before(items[i].key(), items[j].key()));
            SocketAddr::before_irreflexive(items[i].key());
            assert(list@[i] == items[i]);
            assert(list@[j] == items[j]);
        }
    }
    list
}

/// Whether some address of a list is in a set.
fn any_in(list: &Vec<SocketAddr>, addrs: &OrderedSet<SocketAddr>) -> (found: bool)
    requires
        addrs.wf(),
    ensures
        found <==> exists|i: int| 0 <= i < list@.len() && addrs@.contains(#[trigger] list@[i]),
{
    let mut i: usize = 0;
    while i < list.len()
        invariant
            i <= list@.len(),
            addrs.wf(),
            forall|j: int| 0 <= j < i ==> !addrs@.contains(#[trigger] list@[j]),
        decreases list@.len() - i,
    {
        if addrs.contains(&list[i]) {
            assert(addrs@.contains(list@[i as int]));
            return true;
        }
        i = i + 1;
    }
    false
}

/// A dead member to gossip with, if the draw is won. `drawn` says how a draw against the odds
/// came out.
pub fn select_dead_member_to_gossip_with(
    dead_members: &OrderedSet<SocketAddr>,
    live_members_count: usize,
    dead_members_count: usize,
    drawn: bool,
) -> (selected: Option<SocketAddr>)
    requires
        dead_members.wf(),
    ensures
        selected is Some <==> dead_members@.len() > 0 && (drawn || dead_members_count
            > live_members_count),
        selected matches Some(addr) ==> dead_members@.contains(addr),
{
    if is_drawn(dead_member_odds(live_members_count, dead_members_count), drawn) {
        let list = listed(dead_members);
        let selected = pick_one(list);
        proof {
            if selected is Some {
                assert(list@.contains(selected->Some_0));
            }
        }
        return selected;
    }
    None
}

/// A seed to gossip with, if no member is live or the draw is won. `drawn` says how a draw
/// against the odds came out.
pub fn select_seed_member_to_gossip_with(
    seed_members: &OrderedSet<SocketAddr>,
    live_members_count: usize,
    dead_members_count: usize,
    drawn: bool,
) -> (selected: Option<SocketAddr>)
    requires
        seed_members.wf(),
    ensures
        selected is Some <==> seed_members@.len() > 0 && (live_members_count == 0 || drawn
            || seed_members@.len() > live_members_count + dead_members_count),
        selected matches Some(addr) ==> seed_members@.contains(addr),
{
    let odds = seed_member_odds(seed_members.len(), live_members_count, dead_members_count);
    if live_members_count == 0 || is_drawn(odds, drawn) {
        let list = listed(seed_members);
        let selected = pick_one(list);
        proof {
            if selected is Some {
                assert(list@.contains(selected->Some_0));
            }
        }
        return selected;
    }
    None
}

/// Where the members of a round are picked from. On startup no live member is known yet, so
/// they are picked from all peers.
pub open spec fn round_pool(pools: GossipPools) -> Set<SocketAddr> {
    if pools.live_members@.len() == 0 {
        pools.peer_members@
    } else {
        pools.live_members@
    }
}

/// Whether the members picked call for a seed on top: none of them is one, or fewer members
/// are live than there are seeds.
pub open spec fn calls_for_seed(pools: GossipPools, members: Seq<SocketAddr>) -> bool {
    ||| forall|i: int|
        0 <= i < members.len() ==> !pools.seed_members@.contains(#[trigger] members[i])
    ||| pools.live_members@.len() < pools.seed_members@.len()
}

/// Whether this is whom a round may gossip with: some members, three if there are as many; a
/// dead one if that was drawn or is certain; and a seed if one is called for, and nobody is
/// live or it was drawn or is certain.
pub open spec fn selects(
    pools: GossipPools,
    dead_drawn: bool,
    seed_drawn: bool,
    members: Seq<SocketAddr>,
    dead_member: Option<SocketAddr>,
    seed_member: Option<SocketAddr>,
) -> bool {
    &&& members.no_duplicates()
    &&& members.len() == if round_pool(pools).len() < GOSSIP_COUNT {
        round_pool(pools).len()
    } else {
        GOSSIP_COUNT as nat
    }
    &&& forall|i: int|
        0 <= i < members.len() ==> round_pool(pools).contains(#[trigger] members[i])
    &&& dead_member is Some <==> {
        &&& dead_drawn || pools.dead_members@.len() > pools.live_members@.len()
        &&& pools.dead_members@.len() > 0
    }
    &&& dead_member matches Some(addr) ==> pools.dead_members@.contains(addr)
    &&& seed_member is Some <==> {
        &&& calls_for_seed(pools, members)
        &&& pools.live_members@.len() == 0 || seed_drawn || pools.seed_members@.len()
            > pools.live_members@.len() + pools.dead_members@.len()
        &&& pools.seed_members@.len() > 0
    }
    &&& seed_member matches Some(addr) ==> pools.seed_members@.contains(addr)
}

/// Picks whom to gossip with in a round: some members, maybe a dead one, maybe a seed.
/// `dead_drawn` and `seed_drawn` say how draws against [`dead_member_odds`] and
/// [`seed_member_odds`] came out.
pub fn select_members_for_gossip(
    pools: &GossipPools,
    dead_drawn: bool,
    seed_drawn: bool,
) -> (selected: (Vec<SocketAddr>, Option<SocketAddr>, Option<SocketAddr>))
    requires
        pools.wf(),
    ensures
        selects(*pools, dead_drawn, seed_drawn, selected.0@, selected.1, selected.2),
{
    let live_members_count = pools.live_members.len();
    let dead_members_count = pools.dead_members.len();
    // On startup we don't know any live member yet, so select from all peers.
    let pool = if live_members_count == 0 {
        listed(&pools.peer_members)
    } else {
        listed(&pools.live_members)
    };
    let members = sample(pool, GOSSIP_COUNT);
    proof {
        lemma_sampled(pool@, members@);
    }
    let has_gossiped_with_a_seed_member = any_in(&members, &pools.seed_members);
    let random_dead_member_opt = select_dead_member_to_gossip_with(
        &pools.dead_members,
        live_members_count,
        dead_members_count,
        dead_drawn,
    );
    // Gossip with a seed member periodically to avoid partitions.
    let random_seed_member_opt = if !has_gossiped_with_a_seed_member || live_members_count
        < pools.seed_members.len() {
        select_seed_member_to_gossip_with(
            &pools.seed_members,
            live_members_count,
            dead_members_count,
            seed_drawn,
        )
    } else {
        None
    };
    (members, random_dead_member_opt, random_seed_member_opt)
}

/// Whatever is drawn: where more members are dead than live, a round gossips with a dead one,
/// and where there are more seeds than live and dead members together, with a seed.
pub proof fn law_certain_draws_are_won(
    pools: GossipPools,
    dead_drawn: bool,
    seed_drawn: bool,
    members: Seq<SocketAddr>,
    dead_member: Option<SocketAddr>,
    seed_member: Option<SocketAddr>,
)
    requires
        selects(pools, dead_drawn, seed_drawn, members, dead_member, seed_member),
    ensures
        pools.dead_members@.len() > pools.live_members@.len() ==> dead_member is Some,
        pools.seed_members@.len() > pools.live_members@.len() + pools.dead_members@.len()
            ==> seed_member is Some,
        pools.live_members@.len() == 0 && pools.seed_members@.len() > 0 ==> seed_member is Some,
{
}

/// A round that gossips with a seed among its members, while at least as many members are
/// live as there are seeds, gossips with no other seed.
pub proof fn law_one_seed_is_enough(
    pools: GossipPools,
    dead_drawn: bool,
    seed_drawn: bool,
    members: Seq<SocketAddr>,
    dead_member: Option<SocketAddr>,
    seed_member: Option<SocketAddr>,
    i: int,
)
    requires
        selects(pools, dead_drawn, seed_drawn, members, dead_member, seed_member),
        0 <= i < members.len(),
        pools.seed_members@.contains(members[i]),
        pools.live_members@.len() >= pools.seed_members@.len(),
    ensures
        seed_member is None,
{
}

/// Whom to gossip with in a round.
#[derive(Debug)]
pub struct GossipRound {
    pub members: Vec<SocketAddr>,
    pub dead_member: Option<SocketAddr>,
    pub seed_member: Option<SocketAddr>,
}

/// Starts a gossip round: picks whom to gossip with from the member's pools, and bumps its
/// heartbeat.
pub fn start_round(
    tchatche: &mut Tchatche,
    pools: &GossipPools,
    dead_drawn: bool,
    seed_drawn: bool,
) -> (round: GossipRound)
    requires
        old(tchatche).wf(),
        old(tchatche)@.self_state().heartbeat.0 < u64::MAX,
        pools.wf(),
        pools.of(old(tchatche)@),
    ensures
        final(tchatche).wf(),
        final(tchatche)@ == old(tchatche)@.bump(),
        selects(*pools, dead_drawn, seed_drawn, round.members@, round.dead_member, round.seed_member),
{
    let (members, dead_member, seed_member) = select_members_for_gossip(
        pools,
        dead_drawn,
        seed_drawn,
    );
    tchatche.update_self_heartbeat();
    GossipRound { members, dead_member, seed_member }
}

/// What is picked from a list without repetitions is on the list, and repeats nothing.
proof fn lemma_sampled<T>(list: Seq<T>, picked: Seq<T>)
    requires
        list.no_duplicates(),
        picked.to_multiset().subset_of(list.to_multiset()),
    ensures
        picked.no_duplicates(),
        forall|i: int| 0 <= i < picked.len() ==> list.contains(#[trigger] picked[i]),
{
    list.to_multiset_ensures();
    picked.to_multiset_ensures();
    list.lemma_multiset_has_no_duplicates();
    assert forall|x: T| picked.to_multiset().contains(x) implies picked.to_multiset().count(x)
        == 1 by {
        assert(list.to_multiset().count(x) >= picked.to_multiset().count(x));
        assert(list.to_multiset().contains(x));
    }
    picked.lemma_multiset_has_no_duplicates_conv();
    assert forall|i: int| 0 <= i < picked.len() implies list.contains(#[trigger] picked[i]) by {
        assert(picked.contains(picked[i]));
        assert(picked.to_multiset().count(picked[i]) > 0);
        assert(list.to_multiset().count(picked[i]) > 0);
    }
}

/// What a server is told from outside.
#[derive(Debug, Clone, Copy, PartialEq, Eq)]
pub enum Command {
    /// Gossip with this address.
    Gossip(SocketAddr),
    /// Stop.
    Shutdown,
}

/// What happens to a server.
#[derive(Debug)]
pub enum ServerEvent {
    /// A message arrived.
    Received { from_addr: SocketAddr, message: Message },
    /// The transport is broken.
    ReceiveFailed,
    /// It is time for a gossip round.
    Tick,
    /// A command arrived, or none can arrive any more.
    Command(Option<Command>),
}

/// What a server does next.
#[derive(Debug)]
pub enum ServerStep {
    /// Send a message.
    Send { to_addr: SocketAddr, message: Message },
    /// Start a gossip round.
    GossipRound,
    /// Nothing.
    Wait,
    /// Stop, as asked.
    Stop,
    /// Stop, because the transport is broken.
    Fail,
}

/// Whether `step` is what a server does on an event, `after` being what its member knows then.
pub open spec fn steps_to(
    before: TchatcheView,
    event: ServerEvent,
    after: TchatcheView,
    step: ServerStep,
) -> bool {
    match event {
        ServerEvent::Received { from_addr, message } => {
            &&& after == before.receive(message)
            &&& match step {
                ServerStep::Send { to_addr, message: reply } => to_addr == from_addr
                    && after.replies(message, Some(reply)),
                ServerStep::Wait => after.replies(message, None),
                _ => false,
            }
        },
        ServerEvent::ReceiveFailed => after == before && step is Fail,
        ServerEvent::Tick => after == before && step is GossipRound,
        ServerEvent::Command(Some(Command::Gossip(addr))) => {
            &&& after == before
            &&& step matches ServerStep::Send { to_addr, message }
            &&& to_addr == addr
            &&& message.wf()
            &&& message@ == before.syn()
        },
        ServerEvent::Command(Some(Command::Shutdown)) => after == before && step is Stop,
        ServerEvent::Command(None) => after == before && step is Stop,
    }
}

/// Handles a message; the reply goes back to where the message came from.
pub fn handle_message(tchatche: &mut Tchatche, from_addr: SocketAddr, message: Message) -> (step:
    ServerStep)
    requires
        old(tchatche).wf(),
        message.wf(),
        message.cluster_id@ == old(tchatche)@.cluster_id ==> old(
            tchatche,
        )@.self_state().heartbeat.0 < u64::MAX,
    ensures
        final(tchatche).wf(),
        steps_to(
            old(tchatche)@,
            (ServerEvent::Received { from_addr, message }),
            final(tchatche)@,
            step,
        ),
{
    match tchatche.process_message(message) {
        Some(reply) => ServerStep::Send { to_addr: from_addr, message: reply },
        None => ServerStep::Wait,
    }
}

/// Starts a handshake with an address.
pub fn gossip(tchatche: &Tchatche, addr: SocketAddr) -> (step: ServerStep)
    requires
        tchatche.wf(),
    ensures
        steps_to(
            tchatche@,
            ServerEvent::Command(Some(Command::Gossip(addr))),
            tchatche@,
            step,
        ),
{
    ServerStep::Send { to_addr: addr, message: tchatche.create_syn_message() }
}

/// What the server does on an event.
pub fn next_step(tchatche: &mut Tchatche, event: ServerEvent) -> (step: ServerStep)
    requires
        old(tchatche).wf(),
        event matches ServerEvent::Received { message, .. } ==> {
            &&& message.wf()
            &&& message.cluster_id@ == old(tchatche)@.cluster_id ==> old(
                tchatche,
            )@.self_state().heartbeat.0 < u64::MAX
        },
    ensures
        final(tchatche).wf(),
        steps_to(old(tchatche)@, event, final(tchatche)@, step),
{
    match event {
        ServerEvent::Received { from_addr, message } => handle_message(
            tchatche,
            from_addr,
            message,
        ),
        ServerEvent::ReceiveFailed => ServerStep::Fail,
        ServerEvent::Tick => ServerStep::GossipRound,
        ServerEvent::Command(Some(Command::Gossip(addr))) => gossip(tchatche, addr),
        ServerEvent::Command(Some(Command::Shutdown)) => ServerStep::Stop,
        ServerEvent::Command(None) => ServerStep::Stop,
    }
}

/// The seeds, as configured: those given by address, and those whose host names have to be
/// looked up again and again.
#[derive(Debug)]
pub struct Seeds {
    static_addrs: OrderedSet<SocketAddr>,
    hosts: OrderedSet<ByteString>,
}

impl Seeds {
    pub closed spec fn wf(&self) -> bool {
        self.static_addrs.wf() && self.hosts.wf()
    }

    /// The seeds given by address.
    pub closed spec fn static_addrs(&self) -> Set<SocketAddr> {
        self.static_addrs@
    }

    /// The seeds given by host name.
    pub closed spec fn host_names(&self) -> Set<Seq<char>> {
        self.hosts@
    }

    pub fn new() -> (seeds: Self)
        ensures
            seeds.wf(),
            seeds.static_addrs() == Set::<SocketAddr>::empty(),
            seeds.host_names() == Set::<Seq<char>>::empty(),
    {
        Seeds { static_addrs: OrderedSet::new(), hosts: OrderedSet::new() }
    }

    /// Takes a configured seed in. `parsed` is the address that it is, if it is one.
    pub fn add(&mut self, seed: &str, parsed: Option<SocketAddr>)
        requires
            old(self).wf(),
        ensures
            final(self).wf(),
            match parsed {
                Some(addr) => {
                    &&& final(self).static_addrs() == old(self).static_addrs().insert(addr)
                    &&& final(self).host_names() == old(self).host_names()
                },
                None => {
                    &&& final(self).static_addrs() == old(self).static_addrs()
                    &&& final(self).host_names() == old(self).host_names().insert(seed@)
                },
            },
    {
        match parsed {
            Some(addr) => {
                self.static_addrs.insert(addr);
            },
            None => {
                self.hosts.insert(byte_string_from(seed.to_owned()));
            },
        }
    }

    /// Whether host names have to be looked up.
    pub fn require_dns(&self) -> (required: bool)
        requires
            self.wf(),
        ensures
            required <==> self.host_names().len() > 0,
    {
        self.hosts.len() > 0
    }

    /// The host names to look up, each once.
    pub fn hosts(&self) -> (hosts: Vec<&str>)
        requires
            self.wf(),
        ensures
            hosts@.len() == self.host_names().len(),
            forall|name: Seq<char>| #[trigger]
                self.host_names().contains(name) <==> exists|i: int|
                    0 <= i < hosts@.len() && (#[trigger] hosts@[i])@ == name,
    {
        let mut hosts: Vec<&str> = Vec::new();
        let len = self.hosts.len();
        let mut i: usize = 0;
        while i < len
            invariant
                i <= len,
                len == self.hosts.items().len(),
                hosts@.len() == i,
                forall|j: int|
                    0 <= j < i ==> (#[trigger] hosts@[j])@ == self.hosts.items()[j].key(),
            decreases len - i,
        {
            hosts.push(byte_string_str(self.hosts.item_at(i)));
            i = i + 1;
        }
        proof {
            self.hosts.lemma_items();
            let items = self.hosts.items();
            assert forall|name: Seq<char>| #[trigger]
                self.host_names().contains(name) <==> exists|i: int|
                    0 <= i < hosts@.len() && (#[trigger] hosts@[i])@ == name by {
                if self.host_names().contains(name) {
                    assert(self.hosts@.contains(name));
                    let j = choose|j: int|
                        0 <= j < items.len() && #[trigger] items[j].key() == name;
                    assert(hosts@[j]@ == name);
                }
                if exists|i: int| 0 <= i < hosts@.len() && (#[trigger] hosts@[i])@ == name {
                    let j = choose|j: int| 0 <= j < hosts@.len() && (#[trigger] hosts@[j])@ == name;
                    assert(self.hosts@.contains(items[j].key()));
                }
            }
        }
        hosts
    }

    /// The addresses of all seeds, `resolved` being what the host names were resolved to.
    pub fn addrs(&self, resolved: &Vec<SocketAddr>) -> (addrs: OrderedSet<SocketAddr>)
        requires
            self.wf(),
        ensures
            addrs.wf(),
            addrs@ == self.static_addrs().union(resolved@.to_set()),
    {
        let mut addrs = self.static_addrs.clone();
        let len = resolved.len();
        let mut i: usize = 0;
        assert(addrs@ =~= self.static_addrs().union(resolved@.take(0).to_set()));
        while i < len
            invariant
                i <= len,
                len == resolved@.len(),
                addrs.wf(),
                addrs@ == self.static_addrs().union(resolved@.take(i as int).to_set()),
            decreases len - i,
        {
            addrs.insert(resolved[i]);
            proof {
                lemma_take_to_set(resolved@, i as int);
                assert(addrs@ =~= self.static_addrs().union(resolved@.take(i + 1).to_set()));
            }
            i = i + 1;
        }
        assert(resolved@.take(len as int) =~= resolved@);
        addrs
    }
}

/// The pools of a round hold the addresses of the known members but oneself, of the live ones,
/// and of the dead ones, and the seeds but one's own address; and no others.
pub proof fn law_pools_hold_the_addresses(
    pools: GossipPools,
    member: TchatcheView,
    addr: SocketAddr,
)
    requires
        pools.of(member),
    ensures
        pools.peer_members@.contains(addr) <==> exists|id: MemberIdView|
            #[trigger] member.states.contains_key(id) && id != member.self_id && id.gossip_addr
                == addr,
        pools.live_members@.contains(addr) <==> exists|id: MemberIdView|
            #[trigger] member.detector.live.contains(id) && id.gossip_addr == addr,
        pools.dead_members@.contains(addr) <==> exists|id: MemberIdView|
            #[trigger] member.detector.dead.contains_key(id) && id.gossip_addr == addr,
        pools.seed_members@.contains(addr) <==> member.seeds.contains(addr) && addr
            != member.self_id.gossip_addr,
{
    let others = member.states.dom().remove(member.self_id);
    if exists|id: MemberIdView|
        #[trigger] member.states.contains_key(id) && id != member.self_id && id.gossip_addr
            == addr {
        let id = choose|id: MemberIdView|
            #[trigger] member.states.contains_key(id) && id != member.self_id && id.gossip_addr
                == addr;
        assert(others.contains(id));
    }
    if addrs_of(others).contains(addr) {
        let id = choose|id: MemberIdView| #[trigger]
            others.contains(id) && id.gossip_addr == addr;
        assert(member.states.contains_key(id));
    }
    if exists|id: MemberIdView|
        #[trigger] member.detector.dead.contains_key(id) && id.gossip_addr == addr {
        let id = choose|id: MemberIdView|
            #[trigger] member.detector.dead.contains_key(id) && id.gossip_addr == addr;
        assert(member.dead().contains(id));
    }
    if addrs_of(member.dead()).contains(addr) {
        let id = choose|id: MemberIdView| #[trigger]
            member.dead().contains(id) && id.gossip_addr == addr;
        assert(member.detector.dead.contains_key(id));
    }
}

/// A round gossips with three different live members, or with all where there are fewer; where
/// nobody is live, with three known members, or with all. It gossips with a dead member exactly
/// if there is one and that was drawn or more members are dead than live. It gossips with a seed
/// exactly if there is one; none of the members picked is one, or fewer are live than there are
/// seeds; and nobody is live, or that was drawn, or there are more seeds than live and dead
/// members.
pub proof fn law_whom_a_round_gossips_with(
    pools: GossipPools,
    dead_drawn: bool,
    seed_drawn: bool,
    members: Seq<SocketAddr>,
    dead_member: Option<SocketAddr>,
    seed_member: Option<SocketAddr>,
)
    requires
        selects(pools, dead_drawn, seed_drawn, members, dead_member, seed_member),
    ensures
        ({
            let live = pools.live_members@;
            let dead = pools.dead_members@;
            let seeds = pools.seed_members@;
            let pool = if live.len() == 0 {
                pools.peer_members@
            } else {
                live
            };
            &&& members.no_duplicates()
            &&& pool.len() >= 3 ==> members.len() == 3
            &&& pool.len() < 3 ==> members.len() == pool.len()
            &&& forall|addr: SocketAddr| #[trigger]
                members.contains(addr) ==> pool.contains(addr)
            &&& dead_member is Some <==> dead.len() > 0 && (dead_drawn || dead.len() > live.len())
            &&& dead_member matches Some(addr) ==> dead.contains(addr)
            &&& seed_member is Some <==> {
                &&& seeds.len() > 0
                &&& live.len() < seeds.len() || forall|addr: SocketAddr|
                    #[trigger] members.contains(addr) ==> !seeds.contains(addr)
                &&& live.len() == 0 || seed_drawn || seeds.len() > live.len() + dead.len()
            }
            &&& seed_member matches Some(addr) ==> seeds.contains(addr)
        }),
{
    let seeds = pools.seed_members@;
    if forall|addr: SocketAddr| #[trigger] members.contains(addr) ==> !seeds.contains(addr) {
        assert forall|i: int| 0 <= i < members.len() implies !seeds.contains(
            #[trigger] members[i],
        ) by {
            assert(members.contains(members[i]));
        }
    }
}

/// A server that is told to gossip with an address sends it a Syn; that is ticked, starts a
/// round; that is stopped, or cut off from commands, stops; and whose transport is broken,
/// fails. None of that changes what its member knows.
pub proof fn law_events_but_messages_change_nothing(
    before: TchatcheView,
    event: ServerEvent,
    after: TchatcheView,
    step: ServerStep,
)
    requires
        steps_to(before, event, after, step),
        !(event is Received),
    ensures
        after == before,
        step is Fail <==> event is ReceiveFailed,
        step is GossipRound <==> event is Tick,
        step is Stop <==> {
            ||| event == ServerEvent::Command(None)
            ||| event == ServerEvent::Command(Some(Command::Shutdown))
        },
        step is Send <==> event matches ServerEvent::Command(Some(Command::Gossip(_))),
        event matches ServerEvent::Command(Some(Command::Gossip(addr))) ==> {
            &&& step matches ServerStep::Send { to_addr, message }
            &&& to_addr == addr
            &&& message@.cluster_id == before.cluster_id
            &&& message@.kind is Syn
        },
{
}

/// A server hands a message that it receives to its member, and sends a reply exactly if the
/// member has one, to where the message came from.
pub proof fn law_replies_go_back(
    before: TchatcheView,
    from_addr: SocketAddr,
    message: Message,
    after: TchatcheView,
    step: ServerStep,
)
    requires
        steps_to(before, (ServerEvent::Received { from_addr, message }), after, step),
    ensures
        after == before.receive(message),
        message.cluster_id@ == before.cluster_id && !(message.kind is Ack) <==> step is Send,
        step is Send || step is Wait,
        step matches ServerStep::Send { to_addr, message: reply } ==> {
            &&& to_addr == from_addr
            &&& after.replies(message, Some(reply))
        },
        step is Wait ==> after.replies(message, None),
{
}

} // verus!
