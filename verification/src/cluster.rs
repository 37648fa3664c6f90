//! What a member knows of its cluster.
use crate::delta::{largest_cut, Delta, MemberDeltaView};
use crate::digest::{Digest, MemberDigest};
use crate::order::OrderedKey;
use crate::ordered_map::{lemma_entries_map, lemma_key_at, OrderedMap};
use crate::ordered_set::OrderedSet;
use crate::staleness::{
    partial_delta, staleness, whole_member_delta, wholes, SortedStaleMembers, StaleMember,
    Staleness,
};
use crate::state::{lemma_apply_key_values, MemberState, MemberStateView};
use crate::types::{MemberId, MemberIdView, SocketAddr, Version};
use vstd::prelude::*;

verus! {

/// The states of the members of a cluster.
#[derive(Debug)]
pub struct ClusterState {
    member_states: OrderedMap<MemberId, MemberState>,
    seed_addrs: OrderedSet<SocketAddr>,
}

/// Member states by identity.
pub type MemberStates = Map<MemberIdView, MemberStateView>;

/// What a map of member states stands for.
pub open spec fn state_views(member_states: Map<MemberIdView, MemberState>) -> MemberStates {
    member_states.map_values(|state: MemberState| state@)
}

/// Every state is valid, and stands under its member's identity.
pub open spec fn valid_states(states: MemberStates) -> bool {
    &&& states.dom().finite()
    &&& forall|id: MemberIdView| #[trigger]
        states.contains_key(id) ==> states[id].valid() && states[id].member_id == id
}

/// The states after one member's delta. Unknown members are learned via the digest, not the
/// delta.
pub open spec fn apply_member_delta(states: MemberStates, member_delta: MemberDeltaView) -> MemberStates {
    let id = member_delta.member_id;
    if states.contains_key(id) {
        states.insert(id, states[id].apply_delta(member_delta))
    } else {
        states
    }
}

/// The states after a delta, member after member.
pub open spec fn apply_deltas(states: MemberStates, delta: Seq<MemberDeltaView>) -> MemberStates
    decreases delta.len(),
{
    if delta.len() == 0 {
        states
    } else {
        apply_member_delta(apply_deltas(states, delta.drop_last()), delta.last())
    }
}

/// The version up to which the sender of a digest holds a member's key-values.
pub open spec fn known_version(
    digest: Map<MemberIdView, MemberDigest>,
    id: MemberIdView,
) -> Version {
    if digest.contains_key(id) {
        digest[id].max_version
    } else {
        0
    }
}

/// The digests of the members that are not excluded.
pub open spec fn digests(states: MemberStates, exclude: Set<MemberIdView>) -> Map<
    MemberIdView,
    MemberDigest,
> {
    Map::new(
        |id: MemberIdView| states.contains_key(id) && !exclude.contains(id),
        |id: MemberIdView| states[id].digest(),
    )
}

/// A member that is not excluded, and of which the sender of a digest lacks key-values.
pub open spec fn shareable(
    states: MemberStates,
    digest: Map<MemberIdView, MemberDigest>,
    exclude: Set<MemberIdView>,
    id: MemberIdView,
) -> bool {
    &&& states.contains_key(id)
    &&& !exclude.contains(id)
    &&& states[id].max_version > known_version(digest, id)
}

/// The members to share, each once, the stalest first.
pub open spec fn gossip_order(
    states: MemberStates,
    digest: Map<MemberIdView, MemberDigest>,
    exclude: Set<MemberIdView>,
    order: Seq<MemberIdView>,
) -> bool {
    &&& order.no_duplicates()
    &&& forall|id: MemberIdView| #[trigger]
        order.contains(id) <==> shareable(states, digest, exclude, id)
    &&& forall|i: int, j: int|
        0 <= i < j < order.len() ==> !Staleness::before(
            staleness(states[#[trigger] order[i]], known_version(digest, order[i])).key(),
            staleness(states[#[trigger] order[j]], known_version(digest, order[j])).key(),
        )
}

/// All that the sender of a digest lacks, in the given order of the members.
pub open spec fn whole_delta(
    states: MemberStates,
    digest: Map<MemberIdView, MemberDigest>,
    order: Seq<MemberIdView>,
) -> Seq<MemberDeltaView> {
    order.map_values(
        |id: MemberIdView| whole_member_delta(states[id], known_version(digest, id)),
    )
}

/// A delta that may be answered to a digest: as much as fits the mtu, the stalest members
/// first.
pub open spec fn partial_delta_for(
    states: MemberStates,
    digest: Map<MemberIdView, MemberDigest>,
    exclude: Set<MemberIdView>,
    mtu: usize,
    delta: Seq<MemberDeltaView>,
) -> bool {
    exists|order: Seq<MemberIdView>| #[trigger]
        gossip_order(states, digest, exclude, order) && largest_cut(
            delta,
            whole_delta(states, digest, order),
            mtu,
        )
}

impl ClusterState {
    /// What is known of the members.
    pub closed spec fn states(&self) -> MemberStates {
        state_views(self.member_states@)
    }

    /// The addresses of the seeds.
    pub closed spec fn seeds(&self) -> Set<SocketAddr> {
        self.seed_addrs@
    }

    /// Members, seeds and key-values are kept in order.
    pub closed spec fn ordered(&self) -> bool {
        &&& self.member_states.wf()
        &&& self.seed_addrs.wf()
        &&& forall|id: MemberIdView| #[trigger]
            self.member_states@.contains_key(id) ==> self.member_states@[id].ordered()
    }

    pub open spec fn wf(&self) -> bool {
        self.ordered() && valid_states(self.states())
    }

    pub fn with_seed_addrs(seed_addrs: OrderedSet<SocketAddr>) -> (state: ClusterState)
        requires
            seed_addrs.wf(),
        ensures
            state.wf(),
            state.states() == Map::<MemberIdView, MemberStateView>::empty(),
            state.seeds() == seed_addrs@,
    {
        let state = ClusterState { member_states: OrderedMap::new(), seed_addrs };
        assert(state.states() =~= Map::empty());
        state
    }

    /// Takes over the addresses of the seeds.
    pub fn set_seed_addrs(&mut self, seed_addrs: OrderedSet<SocketAddr>)
        requires
            old(self).wf(),
            seed_addrs.wf(),
        ensures
            final(self).wf(),
            final(self).states() == old(self).states(),
            final(self).seeds() == seed_addrs@,
    {
        self.seed_addrs = seed_addrs;
    }

    pub fn member_states(&self) -> (member_states: &OrderedMap<MemberId, MemberState>)
        requires
            self.wf(),
        ensures
            member_states.wf(),
            state_views(member_states@) == self.states(),
            forall|id: MemberIdView| #[trigger]
                member_states@.contains_key(id) ==> member_states@[id].wf(),
    {
        proof {
            assert forall|id: MemberIdView| #[trigger]
                self.member_states@.contains_key(id) implies self.member_states@[id].wf() by {
                assert(self.states().contains_key(id));
            }
        }
        &self.member_states
    }

    pub fn member_state(&self, member_id: &MemberId) -> (state: Option<&MemberState>)
        requires
            self.wf(),
        ensures
            match state {
                Some(state) => state.wf() && self.states().contains_key(member_id@) && state@
                    == self.states()[member_id@],
                None => !self.states().contains_key(member_id@),
            },
    {
        let state = self.member_states.get(member_id);
        proof {
            if state is Some {
                assert(self.states().contains_key(member_id@));
            }
        }
        state
    }

    /// Mutable access to a member's state. An unknown member is learned.
    pub fn member_state_mut_or_init(&mut self, member_id: &MemberId) -> (state: &mut MemberState)
        requires
            old(self).wf(),
        ensures
            state.wf(),
            state@ == if old(self).states().contains_key(member_id@) {
                old(self).states()[member_id@]
            } else {
                MemberStateView::unheard(member_id@)
            },
            final(self).states() == old(self).states().insert(member_id@, final(state)@),
            final(self).seeds() == old(self).seeds(),
            final(state).wf() && final(state)@.member_id == member_id@ ==> final(self).wf(),
    {
        let ghost before = self.states();
        if !self.member_states.contains_key(member_id) {
            self.member_states.insert(member_id.clone(), MemberState::new(member_id.clone()));
        }
        let ghost held = self.member_states@;
        proof {
            assert(held.contains_key(member_id@));
            assert forall|id: MemberIdView| id != member_id@ && #[trigger] held.contains_key(
                id,
            ) implies before.contains_key(id) && before[id] == held[id]@
                && held[id].ordered() by {}
            assert forall|new: MemberState| #[trigger]
                state_views(held.insert(member_id@, new)) == before.insert(
                    member_id@,
                    new@,
                ) by {
                assert(state_views(held.insert(member_id@, new)) =~= before.insert(
                    member_id@,
                    new@,
                ));
            }
        }
        self.member_states.get_mut(member_id).unwrap()
    }

    /// Inserts the local member's pre-built state.
    pub fn insert_self_member_state(&mut self, member_state: MemberState)
        requires
            old(self).wf(),
            member_state.wf(),
        ensures
            final(self).wf(),
            final(self).states() == old(self).states().insert(
                member_state@.member_id,
                member_state@,
            ),
            final(self).seeds() == old(self).seeds(),
    {
        let ghost before = self.member_states@;
        self.member_states.insert(member_state.member_id().clone(), member_state);
        proof {
            assert(self.states() =~= state_views(before).insert(
                member_state@.member_id,
                member_state@,
            ));
        }
    }

    /// The members, in ascending order.
    pub fn members(&self) -> (members: Vec<&MemberId>)
        requires
            self.wf(),
        ensures
            members@.len() == self.states().len(),
            forall|i: int|
                0 <= i < members@.len() ==> self.states().contains_key((#[trigger] members@[i])@),
            forall|i: int, j: int|
                0 <= i < j < members@.len() ==> MemberId::before(
                    (#[trigger] members@[i])@,
                    (#[trigger] members@[j])@,
                ),
    {
        let ghost entries = self.member_states.entries();
        proof {
            lemma_entries_map(entries);
            assert(self.states().dom() =~= self.member_states@.dom());
        }
        let mut members: Vec<&MemberId> = Vec::new();
        let len = self.member_states.len();
        let mut i: usize = 0;
        while i < len
            invariant
                i <= len,
                len == entries.len(),
                entries == self.member_states.entries(),
                members@.len() == i,
                forall|j: int| 0 <= j < i ==> (#[trigger] members@[j])@ == entries[j].0.key(),
            decreases len - i,
        {
            members.push(self.member_states.key_at(i));
            i = i + 1;
        }
        proof {
            assert forall|i: int| 0 <= i < members@.len() implies self.states().contains_key(
                (#[trigger] members@[i])@,
            ) by {
                assert(self.member_states@.contains_key(entries[i].0.key()));
            }
        }
        members
    }

    pub fn seed_addrs(&self) -> (seed_addrs: OrderedSet<SocketAddr>)
        ensures
            seed_addrs.wf(),
            seed_addrs@ == self.seeds(),
    {
        self.seed_addrs.clone()
    }

    pub fn remove_member(&mut self, member_id: &MemberId)
        requires
            old(self).wf(),
        ensures
            final(self).wf(),
            final(self).states() == old(self).states().remove(member_id@),
            final(self).seeds() == old(self).seeds(),
    {
        let ghost before = self.member_states@;
        self.member_states.remove(member_id);
        assert(self.states() =~= state_views(before).remove(member_id@));
    }

    /// Applies what a delta holds for the members that are known.
    pub fn apply_delta(&mut self, delta: Delta)
        requires
            old(self).wf(),
        ensures
            final(self).wf(),
            final(self).states() == apply_deltas(old(self).states(), delta@),
            final(self).seeds() == old(self).seeds(),
    {
        let ghost before = self.states();
        let ghost seeds = self.seeds();
        let len = delta.member_deltas.len();
        let mut i: usize = 0;
        assert(delta@.take(0) =~= Seq::empty());
        while i < len
            invariant
                i <= len,
                len == delta.member_deltas@.len(),
                self.wf(),
                self.states() == apply_deltas(before, delta@.take(i as int)),
                self.seeds() == seeds,
            decreases len - i,
        {
            let member_delta = &delta.member_deltas[i];
            let ghost current = self.states();
            let ghost held = self.member_states@;
            let ghost id = member_delta.member_id@;
            proof {
                assert(delta@[i as int] == member_delta@);
                assert(delta@.take(i + 1).drop_last() =~= delta@.take(i as int));
                assert forall|new: MemberState| #[trigger]
                    state_views(held.insert(id, new)) == current.insert(id, new@) by {
                    assert(state_views(held.insert(id, new)) =~= current.insert(id, new@));
                }
                if held.contains_key(id) {
                    assert(current.contains_key(id));
                    lemma_apply_key_values(current[id], member_delta@.key_values);
                }
            }
            if let Some(member_state) = self.member_states.get_mut(&member_delta.member_id) {
                member_state.apply_delta(member_delta);
            }
            // Unknown members are learned via the digest, not the delta; ignore.
            assert(self.states() == apply_member_delta(current, member_delta@));
            i = i + 1;
        }
        assert(delta@.take(len as int) =~= delta@);
    }

    /// The digest of the members that are not in `exclude`.
    pub fn compute_digest(&self, exclude: &OrderedSet<MemberId>) -> (digest: Digest)
        requires
            self.wf(),
            exclude.wf(),
        ensures
            digest.wf(),
            digest@ == digests(self.states(), exclude@),
    {
        let ghost entries = self.member_states.entries();
        proof {
            lemma_entries_map(entries);
        }
        let mut member_digests: OrderedMap<MemberId, MemberDigest> = OrderedMap::new();
        let len = self.member_states.len();
        let mut i: usize = 0;
        while i < len
            invariant
                i <= len,
                len == entries.len(),
                entries == self.member_states.entries(),
                exclude.wf(),
                member_digests.wf(),
                forall|j: int|
                    0 <= j < entries.len() ==> {
                        &&& self.member_states@.contains_key(#[trigger] entries[j].0.key())
                        &&& self.member_states@[entries[j].0.key()] == entries[j].1
                    },
                forall|id: MemberIdView| #[trigger]
                    member_digests@.contains_key(id) ==> {
                        &&& self.member_states@.contains_key(id)
                        &&& !exclude@.contains(id)
                        &&& member_digests@[id] == self.member_states@[id]@.digest()
                    },
                forall|j: int|
                    0 <= j < i && !exclude@.contains(#[trigger] entries[j].0.key())
                        ==> member_digests@.contains_key(entries[j].0.key()),
            decreases len - i,
        {
            let member_id = self.member_states.key_at(i);
            assert(self.member_states@.contains_key(entries[i as int].0.key()));
            if !exclude.contains(member_id) {
                member_digests.insert(
                    member_id.clone(),
                    self.member_states.value_at(i).digest(),
                );
            }
            i = i + 1;
        }
        proof {
            lemma_entries_map(entries);
            assert(member_digests@ =~= digests(self.states(), exclude@)) by {
                assert forall|id: MemberIdView|
                    digests(self.states(), exclude@).contains_key(
                        id,
                    ) implies member_digests@.contains_key(id) by {
                    assert(self.member_states@.contains_key(id));
                    let j = choose|j: int|
                        0 <= j < entries.len() && #[trigger] entries[j].0.key() == id;
                    assert(!exclude@.contains(entries[j].0.key()));
                }
            }
        }
        Digest { member_digests }
    }

    /// Scuttlebutt reconciliation with scuttle-depth ordering, bounded by `mtu`. Members in
    /// `exclude` (dead) are not shared.
    pub fn compute_partial_delta_respecting_mtu(
        &self,
        digest: &Digest,
        mtu: usize,
        exclude: &OrderedSet<MemberId>,
    ) -> (delta: Delta)
        requires
            self.wf(),
            digest.wf(),
            exclude.wf(),
        ensures
            partial_delta_for(self.states(), digest@, exclude@, mtu, delta@),
    {
        let stale = self.stale_members(digest, exclude);
        let ghost members = stale.members();
        let order = stale.into_iter();
        let delta = partial_delta(&order, mtu);
        proof {
            let ids = order@.map_values(|member: StaleMember| member.member_id@);
            assert forall|i: int| 0 <= i < order@.len() implies members.contains(
                #[trigger] order@[i],
            ) by {
                assert(order@.contains(order@[i]));
            }
            assert forall|id: MemberIdView| #[trigger]
                shareable(self.states(), digest@, exclude@, id) implies exists|i: int|
                0 <= i < order@.len() && (#[trigger] order@[i]).member_id@ == id by {
                let member = choose|member: StaleMember| #[trigger]
                    members.contains(member) && member.member_id@ == id;
                assert(order@.contains(member));
                let i = choose|i: int| 0 <= i < order@.len() && order@[i] == member;
                assert(order@[i].member_id@ == id);
            }
            lemma_gossip_order(self.states(), digest@, exclude@, order@);
            assert(wholes(order@) =~= whole_delta(self.states(), digest@, ids)) by {
                assert forall|i: int| 0 <= i < order@.len() implies #[trigger] wholes(order@)[i]
                    == whole_delta(self.states(), digest@, ids)[i] by {
                    assert(members.contains(order@[i]));
                }
            }
        }
        delta
    }

    /// The members of which the sender of a digest lacks key-values.
    fn stale_members<'a>(&'a self, digest: &Digest, exclude: &OrderedSet<MemberId>) -> (stale:
        SortedStaleMembers<'a>)
        requires
            self.wf(),
            digest.wf(),
            exclude.wf(),
        ensures
            stale.wf(),
            forall|member: StaleMember<'a>| #[trigger]
                stale.members().contains(member) ==> stale_member_of(
                    self.states(),
                    digest@,
                    exclude@,
                    member,
                ),
            forall|id: MemberIdView| #[trigger]
                shareable(self.states(), digest@, exclude@, id) ==> exists|member: StaleMember<'a>|
                    #[trigger] stale.members().contains(member) && member.member_id@ == id,
            forall|a: StaleMember<'a>, b: StaleMember<'a>| #[trigger]
                stale.members().contains(a) && #[trigger] stale.members().contains(b)
                    && a.member_id@ == b.member_id@ ==> a == b,
    {
        let ghost entries = self.member_states.entries();
        let ghost states = self.states();
        proof {
            lemma_entries_map(entries);
        }
        let mut stale: SortedStaleMembers<'a> = SortedStaleMembers::new();
        let len = self.member_states.len();
        let mut i: usize = 0;
        while i < len
            invariant
                i <= len,
                len == entries.len(),
                entries == self.member_states.entries(),
                states == self.states(),
                self.wf(),
                digest.wf(),
                exclude.wf(),
                stale.wf(),
                forall|j: int|
                    0 <= j < entries.len() ==> {
                        &&& self.member_states@.contains_key(#[trigger] entries[j].0.key())
                        &&& self.member_states@[entries[j].0.key()] == entries[j].1
                    },
                forall|member: StaleMember<'a>| #[trigger]
                    stale.members().contains(member) ==> {
                        &&& stale_member_of(states, digest@, exclude@, member)
                        &&& exists|j: int|
                            0 <= j < i && #[trigger] entries[j].0.key() == member.member_id@
                    },
                forall|j: int|
                    0 <= j < i && #[trigger] shareable(
                        states,
                        digest@,
                        exclude@,
                        entries[j].0.key(),
                    ) ==> exists|member: StaleMember<'a>| #[trigger]
                        stale.members().contains(member) && member.member_id@
                            == entries[j].0.key(),
                forall|a: StaleMember<'a>, b: StaleMember<'a>| #[trigger]
                    stale.members().contains(a) && #[trigger] stale.members().contains(b)
                        && a.member_id@ == b.member_id@ ==> a == b,
            decreases len - i,
        {
            let member_id = self.member_states.key_at(i);
            let member_state = self.member_states.value_at(i);
            let ghost id = entries[i as int].0.key();
            let ghost before = stale.members();
            proof {
                assert(self.member_states@.contains_key(id));
                assert(states.contains_key(id));
                assert forall|member: StaleMember<'a>| #[trigger]
                    before.contains(member) implies member.member_id@ != id by {
                    if member.member_id@ == id {
                        let j = choose|j: int|
                            0 <= j < i && #[trigger] entries[j].0.key() == member.member_id@;
                        lemma_key_at(entries, j, i as int);
                    }
                }
            }
            if !exclude.contains(member_id) {
                let digest_max_version = match digest.member_digests.get(member_id) {
                    Some(member_digest) => member_digest.max_version,
                    None => 0,
                };
                if member_state.max_version() > digest_max_version {
                    stale.offer(member_id, member_state, digest_max_version);
                    proof {
                        let new = StaleMember {
                            member_id,
                            member_state,
                            from_version_excluded: digest_max_version,
                        };
                        assert(stale.members() == before.insert(new));
                        assert(stale.members().contains(new));
                        assert(entries[i as int].0.key() == new.member_id@);
                    }
                }
            }
            proof {
                assert forall|member: StaleMember<'a>| #[trigger]
                    stale.members().contains(member) implies exists|j: int|
                    0 <= j < i + 1 && #[trigger] entries[j].0.key() == member.member_id@ by {
                    if before.contains(member) {
                        let j = choose|j: int|
                            0 <= j < i && #[trigger] entries[j].0.key() == member.member_id@;
                        assert(entries[j].0.key() == member.member_id@);
                    } else {
                        assert(entries[i as int].0.key() == member.member_id@);
                    }
                }
                assert forall|j: int|
                    0 <= j < i + 1 && #[trigger] shareable(
                        states,
                        digest@,
                        exclude@,
                        entries[j].0.key(),
                    ) implies exists|member: StaleMember<'a>| #[trigger]
                    stale.members().contains(member) && member.member_id@
                        == entries[j].0.key() by {
                    if j < i {
                        let member = choose|member: StaleMember<'a>| #[trigger]
                            before.contains(member) && member.member_id@ == entries[j].0.key();
                        assert(stale.members().contains(member));
                    }
                }
            }
            i = i + 1;
        }
        proof {
            lemma_entries_map(entries);
            assert forall|id: MemberIdView| #[trigger]
                shareable(states, digest@, exclude@, id) implies exists|member: StaleMember<'a>|
                #[trigger] stale.members().contains(member) && member.member_id@ == id by {
                assert(self.member_states@.contains_key(id));
                let j = choose|j: int|
                    0 <= j < entries.len() && #[trigger] entries[j].0.key() == id;
                assert(shareable(states, digest@, exclude@, entries[j].0.key()));
            }
        }
        stale
    }
}

/// What is to be shared of one member.
spec fn stale_member_of(
    states: MemberStates,
    digest: Map<MemberIdView, MemberDigest>,
    exclude: Set<MemberIdView>,
    member: StaleMember,
) -> bool {
    &&& shareable(states, digest, exclude, member.member_id@)
    &&& member.member_state@ == states[member.member_id@]
    &&& member.from_version_excluded == known_version(digest, member.member_id@)
}

/// Members in the order in which they are to be shared.
proof fn lemma_gossip_order(
    states: MemberStates,
    digest: Map<MemberIdView, MemberDigest>,
    exclude: Set<MemberIdView>,
    order: Seq<StaleMember>,
)
    requires
        order.no_duplicates(),
        forall|i: int|
            0 <= i < order.len() ==> stale_member_of(states, digest, exclude, #[trigger] order[i]),
        forall|i: int, j: int|
            0 <= i < order.len() && 0 <= j < order.len() && (#[trigger] order[i]).member_id@ == (
            #[trigger] order[j]).member_id@ ==> order[i] == order[j],
        forall|id: MemberIdView| #[trigger]
            shareable(states, digest, exclude, id) ==> exists|i: int|
                0 <= i < order.len() && (#[trigger] order[i]).member_id@ == id,
        forall|i: int, j: int|
            0 <= i < j < order.len() ==> !Staleness::before(
                (#[trigger] order[i]).rank(),
                (#[trigger] order[j]).rank(),
            ),
    ensures
        gossip_order(
            states,
            digest,
            exclude,
            order.map_values(|member: StaleMember| member.member_id@),
        ),
{
    let ids = order.map_values(|member: StaleMember| member.member_id@);
    assert(ids.no_duplicates()) by {
        assert forall|i: int, j: int| 0 <= i < j < ids.len() implies ids[i] != ids[j] by {
            assert(order[i] != order[j]);
        }
    }
    assert forall|id: MemberIdView| #[trigger] ids.contains(id) <==> shareable(
        states,
        digest,
        exclude,
        id,
    ) by {
        if ids.contains(id) {
            let i = choose|i: int| 0 <= i < ids.len() && ids[i] == id;
            assert(stale_member_of(states, digest, exclude, order[i]));
        }
        if shareable(states, digest, exclude, id) {
            let i = choose|i: int| 0 <= i < order.len() && (#[trigger] order[i]).member_id@ == id;
            assert(ids[i] == id);
        }
    }
    assert forall|i: int, j: int| 0 <= i < j < ids.len() implies !Staleness::before(
        staleness(states[#[trigger] ids[i]], known_version(digest, ids[i])).key(),
        staleness(states[#[trigger] ids[j]], known_version(digest, ids[j])).key(),
    ) by {
        assert(stale_member_of(states, digest, exclude, order[i]));
        assert(stale_member_of(states, digest, exclude, order[j]));
        assert(!Staleness::before(order[i].rank(), order[j].rank()));
    }
}

} // verus!
