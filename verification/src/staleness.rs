//! Which members are gossiped first, and how much of them fits.
use crate::delta::{
    cut_of, largest_cut, next_op, Delta, DeltaOp, DeltaSerializer, KeyValueView, MemberDeltaView,
};
use crate::order::{text_before, KeyOrder, OrderedKey};
use crate::ordered_map::{lemma_entries_map, OrderedMap};
use crate::random::shuffle;
use crate::state::{
    has_version, in_version_order, key_of, stale_keys, KeyValues, MemberState, MemberStateView,
};
use crate::types::{MemberId, Version, VersionedValue};
use bytestring::ByteString;
use itertools::Itertools;
use vstd::prelude::*;

verus! {

/// Score deciding which member to gossip first. Unknown members go first (lowest
/// `max_version` among them first); then known members with more stale key-values.
#[derive(Debug, Clone, Copy, PartialEq, Eq, Structural)]
pub struct Staleness {
    pub is_unknown: bool,
    pub max_version: Version,
    pub num_stale_key_values: usize,
}

/// What of a [`Staleness`] decides.
pub struct StalenessRank {
    pub is_unknown: bool,
    pub rank: int,
}

impl OrderedKey for Staleness {
    type Key = StalenessRank;

    open spec fn key(&self) -> StalenessRank {
        StalenessRank {
            is_unknown: self.is_unknown,
            rank: if self.is_unknown {
                -(self.max_version as int)
            } else {
                self.num_stale_key_values as int
            },
        }
    }

    /// `a` is less stale than `b`.
    open spec fn before(a: StalenessRank, b: StalenessRank) -> bool {
        if a.is_unknown == b.is_unknown {
            a.rank < b.rank
        } else {
            b.is_unknown
        }
    }

    proof fn before_irreflexive(a: StalenessRank) {
    }

    proof fn before_transitive(a: StalenessRank, b: StalenessRank, c: StalenessRank) {
    }

    proof fn before_total(a: StalenessRank, b: StalenessRank) {
    }

    fn compare(&self, other: &Staleness) -> (order: KeyOrder) {
        if self.is_unknown != other.is_unknown {
            if other.is_unknown {
                KeyOrder::Before
            } else {
                KeyOrder::After
            }
        } else if self.is_unknown {
            if self.max_version > other.max_version {
                KeyOrder::Before
            } else if self.max_version < other.max_version {
                KeyOrder::After
            } else {
                KeyOrder::Same
            }
        } else if self.num_stale_key_values < other.num_stale_key_values {
            KeyOrder::Before
        } else if self.num_stale_key_values > other.num_stale_key_values {
            KeyOrder::After
        } else {
            KeyOrder::Same
        }
    }
}

/// How stale a peer is that holds a member's versions up to `floor`.
pub open spec fn staleness(state: MemberStateView, floor: Version) -> Staleness {
    Staleness {
        is_unknown: floor == 0,
        max_version: state.max_version,
        num_stale_key_values: stale_keys(state.key_values, floor).len() as usize,
    }
}

/// How stale a peer is that holds a member's versions up to `floor_version`, or `None` if it
/// holds all that there are.
pub fn staleness_score(member_state: &MemberState, floor_version: Version) -> (score: Option<
    Staleness,
>)
    requires
        member_state.wf(),
    ensures
        score == if member_state@.max_version <= floor_version {
            None
        } else {
            Some(staleness(member_state@, floor_version))
        },
{
    if member_state.max_version() <= floor_version {
        return None;
    }
    let is_unknown = floor_version == 0;
    let num_stale_key_values = if is_unknown {
        assert(stale_keys(member_state@.key_values, 0) =~= member_state@.key_values.dom());
        member_state.num_key_values()
    } else {
        member_state.stale_key_values(floor_version).len()
    };
    Some(
        Staleness { is_unknown, max_version: member_state.max_version(), num_stale_key_values },
    )
}

/// All that a member's state has above the version `from`.
pub open spec fn whole_member_delta(state: MemberStateView, from: Version) -> MemberDeltaView {
    MemberDeltaView {
        member_id: state.member_id,
        from_version_excluded: from,
        key_values: in_version_order(state.key_values, from as nat, state.max_version as nat),
    }
}

/// A member of which a peer lacks key-values.
#[derive(Clone, Copy)]
pub struct StaleMember<'a> {
    pub member_id: &'a MemberId,
    pub member_state: &'a MemberState,
    pub from_version_excluded: Version,
}

impl<'a> StaleMember<'a> {
    pub open spec fn wf(&self) -> bool {
        self.member_state.wf() && self.member_state@.member_id == self.member_id@
    }

    /// How stale the peer is.
    pub open spec fn rank(&self) -> StalenessRank {
        staleness(self.member_state@, self.from_version_excluded).key()
    }

    /// All that the peer lacks.
    pub open spec fn whole(&self) -> MemberDeltaView {
        whole_member_delta(self.member_state@, self.from_version_excluded)
    }

    /// Stale key-values in increasing version order.
    pub fn stale_key_values(&self) -> (stale: Vec<(&str, &VersionedValue)>)
        requires
            self.wf(),
        ensures
            key_value_pairs(stale@) == self.whole().key_values,
    {
        let ghost held = self.member_state@.key_values;
        let by_key = self.member_state.stale_key_values(self.from_version_excluded);
        let len = by_key.len();
        let mut versions: Vec<(Version, usize)> = Vec::new();
        let mut i: usize = 0;
        while i < len
            invariant
                i <= len,
                len == by_key@.len(),
                versions@.len() == i,
                forall|j: int|
                    0 <= j < i ==> (#[trigger] versions@[j]) == (by_key@[j].1.version, j as usize),
            decreases len - i,
        {
            versions.push((by_key[i].1.version, i));
            i = i + 1;
        }
        let ghost unsorted = versions@;
        let order = sorted_by_version(versions);
        proof {
            assert(unsorted.no_duplicates());
            lemma_permutation(unsorted, order@);
        }
        let mut stale: Vec<(&str, &VersionedValue)> = Vec::new();
        let mut i: usize = 0;
        while i < len
            invariant
                i <= len,
                len == by_key@.len(),
                len == order@.len(),
                stale@.len() == i,
                forall|j: int|
                    0 <= j < len ==> {
                        &&& (#[trigger] order@[j]).1 < len
                        &&& order@[j].0 == by_key@[order@[j].1 as int].1.version
                    },
                forall|j: int| 0 <= j < i ==> #[trigger] stale@[j] == by_key@[order@[j].1 as int],
            decreases len - i,
        {
            let place: usize = order[i].1;
            assert(place == order@[i as int].1);
            stale.push(by_key[place]);
            i = i + 1;
        }
        proof {
            let pairs = key_value_pairs(stale@);
            assert forall|i: int, j: int| 0 <= i < j < pairs.len() implies (
            #[trigger] pairs[i]).version < (#[trigger] pairs[j]).version by {
                assert(stale@[i] == by_key@[order@[i].1 as int]);
                assert(stale@[j] == by_key@[order@[j].1 as int]);
                if pairs[i].version == pairs[j].version {
                    assert(held[stale@[i].0@].version == held[stale@[j].0@].version);
                    let a = order@[i].1 as int;
                    let b = order@[j].1 as int;
                    if a < b {
                        assert(text_before(by_key@[a].0@, by_key@[b].0@));
                        ByteString::before_irreflexive(by_key@[a].0@);
                    } else if b < a {
                        assert(text_before(by_key@[b].0@, by_key@[a].0@));
                        ByteString::before_irreflexive(by_key@[a].0@);
                    }
                    assert(order@[i] == order@[j]);
                }
            }
            assert forall|k: Seq<char>|
                #[trigger] held.contains_key(k) && self.from_version_excluded
                    < held[k].version <= self.member_state@.max_version implies exists|i: int|
                0 <= i < pairs.len() && (#[trigger] pairs[i]).key == k by {
                let m = choose|m: int| 0 <= m < by_key@.len() && (#[trigger] by_key@[m]).0@ == k;
                assert(unsorted[m] == (by_key@[m].1.version, m as usize));
                assert(unsorted.contains(unsorted[m]));
                let i = choose|i: int| 0 <= i < order@.len() && order@[i] == unsorted[m];
                assert(stale@[i] == by_key@[order@[i].1 as int]);
                assert(pairs[i].key == k);
            }
            assert forall|i: int| 0 <= i < pairs.len() implies {
                &&& held.contains_key((#[trigger] pairs[i]).key)
                &&& held[pairs[i].key].value == pairs[i].value
                &&& held[pairs[i].key].version == pairs[i].version
                &&& self.from_version_excluded < pairs[i].version
                    <= self.member_state@.max_version
            } by {
                assert(stale@[i] == by_key@[order@[i].1 as int]);
            }
            lemma_in_version_order(
                held,
                self.from_version_excluded as nat,
                self.member_state@.max_version as nat,
                pairs,
            );
        }
        stale
    }
}

/// What a list of keys with their versioned values stands for.
pub open spec fn key_value_pairs(pairs: Seq<(&str, &VersionedValue)>) -> Seq<KeyValueView> {
    pairs.map_values(
        |pair: (&str, &VersionedValue)|
            KeyValueView { key: pair.0@, value: pair.1@.value, version: pair.1@.version },
    )
}

/// `Itertools::sorted_unstable_by_key`, sorting by the first component: the same items, in
/// ascending order of it.
#[verifier::external_body]
fn sorted_by_version(items: Vec<(Version, usize)>) -> (sorted: Vec<(Version, usize)>)
    ensures
        sorted@.to_multiset() == items@.to_multiset(),
        forall|i: int, j: int|
            0 <= i < j < sorted@.len() ==> (#[trigger] sorted@[i]).0 <= (#[trigger] sorted@[j]).0,
{
    items.into_iter().sorted_unstable_by_key(|item| item.0).collect()
}

/// Two sequences with the same items, of which one repeats none.
proof fn lemma_permutation<T>(a: Seq<T>, b: Seq<T>)
    requires
        a.no_duplicates(),
        a.to_multiset() == b.to_multiset(),
    ensures
        a.len() == b.len(),
        b.no_duplicates(),
        forall|i: int| 0 <= i < a.len() ==> b.contains(#[trigger] a[i]),
        forall|i: int| 0 <= i < b.len() ==> a.contains(#[trigger] b[i]),
{
    a.to_multiset_ensures();
    b.to_multiset_ensures();
    a.lemma_multiset_has_no_duplicates();
    b.lemma_multiset_has_no_duplicates_conv();
    assert forall|i: int| 0 <= i < a.len() implies b.contains(#[trigger] a[i]) by {
        assert(a.contains(a[i]));
        assert(a.to_multiset().count(a[i]) > 0);
    }
    assert forall|i: int| 0 <= i < b.len() implies a.contains(#[trigger] b[i]) by {
        assert(b.contains(b[i]));
        assert(b.to_multiset().count(b[i]) > 0);
    }
}

/// There is one way to list the key-values of a range of versions in version order.
pub proof fn lemma_in_version_order(
    key_values: KeyValues,
    floor: nat,
    top: nat,
    listed: Seq<KeyValueView>,
)
    requires
        top <= Version::MAX,
        forall|k: Seq<char>, l: Seq<char>|
            #![trigger key_values[k], key_values[l]]
            key_values.contains_key(k) && key_values.contains_key(l) && key_values[k].version
                == key_values[l].version ==> k == l,
        forall|i: int|
            0 <= i < listed.len() ==> {
                &&& key_values.contains_key((#[trigger] listed[i]).key)
                &&& key_values[listed[i].key].value == listed[i].value
                &&& key_values[listed[i].key].version == listed[i].version
                &&& floor < listed[i].version <= top
            },
        forall|i: int, j: int|
            0 <= i < j < listed.len() ==> (#[trigger] listed[i]).version < (
            #[trigger] listed[j]).version,
        forall|k: Seq<char>| #[trigger]
            key_values.contains_key(k) && floor < key_values[k].version <= top ==> exists|i: int|
                0 <= i < listed.len() && (#[trigger] listed[i]).key == k,
    ensures
        listed == in_version_order(key_values, floor, top),
    decreases top,
{
    if top <= floor {
        if listed.len() > 0 {
            assert(floor < listed[0].version <= top);
        }
        assert(listed =~= Seq::empty());
    } else {
        let version = top as Version;
        let below = (top - 1) as nat;
        if has_version(key_values, version) {
            let key = key_of(key_values, version);
            let last = listed.len() - 1;
            let i = choose|i: int| 0 <= i < listed.len() && (#[trigger] listed[i]).key == key;
            if i < last {
                assert(listed[i].version < listed[last].version);
            }
            let front = listed.drop_last();
            assert forall|j: int| 0 <= j < front.len() implies floor < (
            #[trigger] front[j]).version <= below by {
                assert(listed[j].version < listed[last].version);
            }
            assert forall|k: Seq<char>| #[trigger]
                key_values.contains_key(k) && floor < key_values[k].version
                    <= below implies exists|i: int|
                0 <= i < front.len() && (#[trigger] front[i]).key == k by {
                let j = choose|j: int| 0 <= j < listed.len() && (#[trigger] listed[j]).key == k;
                assert(front[j].key == k);
            }
            lemma_in_version_order(key_values, floor, below, front);
            assert(listed =~= front.push(listed[last]));
        } else {
            assert forall|j: int| 0 <= j < listed.len() implies floor < (
            #[trigger] listed[j]).version <= below by {
                assert(key_values.contains_key(listed[j].key));
            }
            lemma_in_version_order(key_values, floor, below, listed);
        }
    }
}

/// The members of which a peer lacks key-values, grouped by how stale the peer is.
pub struct SortedStaleMembers<'a> {
    stale_members: OrderedMap<Staleness, Vec<StaleMember<'a>>>,
}

/// Every group holds members of one staleness, none twice.
spec fn grouped(groups: Map<StalenessRank, Vec<StaleMember>>) -> bool {
    forall|rank: StalenessRank| #[trigger]
        groups.contains_key(rank) ==> group_of(groups[rank]@, rank)
}

impl<'a> SortedStaleMembers<'a> {
    pub closed spec fn wf(&self) -> bool {
        self.stale_members.wf() && grouped(self.stale_members@)
    }

    /// The members offered so far.
    pub closed spec fn members(&self) -> Set<StaleMember<'a>> {
        Set::new(
            |member: StaleMember<'a>|
                self.stale_members@.contains_key(member.rank())
                    && self.stale_members@[member.rank()]@.contains(member),
        )
    }

    pub fn new() -> (sorted: Self)
        ensures
            sorted.wf(),
            sorted.members() == Set::<StaleMember<'a>>::empty(),
    {
        let sorted = SortedStaleMembers { stale_members: OrderedMap::new() };
        assert(sorted.members() =~= Set::<StaleMember<'a>>::empty());
        sorted
    }

    /// Takes a member in, unless the peer lacks nothing of it.
    pub fn offer(
        &mut self,
        member_id: &'a MemberId,
        member_state: &'a MemberState,
        from_version_excluded: Version,
    )
        requires
            old(self).wf(),
            member_state.wf(),
            member_state@.member_id == member_id@,
            forall|member: StaleMember<'a>| #[trigger]
                old(self).members().contains(member) ==> member.member_id@ != member_id@,
        ensures
            final(self).wf(),
            final(self).members() == if member_state@.max_version <= from_version_excluded {
                old(self).members()
            } else {
                old(self).members().insert(
                    (StaleMember { member_id, member_state, from_version_excluded }),
                )
            },
    {
        let staleness = match staleness_score(member_state, from_version_excluded) {
            Some(staleness) => staleness,
            None => {
                return;
            },
        };
        let stale_member = StaleMember { member_id, member_state, from_version_excluded };
        let ghost before = self.stale_members@;
        let ghost members = self.members();
        let ghost rank = stale_member.rank();
        proof {
            assert(!members.contains(stale_member));
        }
        match self.stale_members.get_mut(&staleness) {
            Some(group) => {
                group.push(stale_member);
            },
            None => {
                let mut group: Vec<StaleMember<'a>> = Vec::new();
                group.push(stale_member);
                self.stale_members.insert(staleness, group);
            },
        }
        proof {
            let after = self.stale_members@;
            let known = if before.contains_key(rank) {
                before[rank]@
            } else {
                Seq::empty()
            };
            assert(after[rank]@ =~= known.push(stale_member));
            assert(after.dom() =~= before.dom().insert(rank));
            assert forall|r: StalenessRank| r != rank && #[trigger] after.contains_key(
                r,
            ) implies before.contains_key(r) && after[r] == before[r] by {}
            assert(!known.contains(stale_member));
            assert(grouped(after)) by {
                assert forall|r: StalenessRank| #[trigger] after.contains_key(r) implies group_of(
                    after[r]@,
                    r,
                ) by {
                    if r == rank {
                        if before.contains_key(rank) {
                            assert(known.no_duplicates());
                        }
                        assert forall|i: int| 0 <= i < after[r]@.len() implies (
                        #[trigger] after[r]@[i]).wf() && after[r]@[i].rank() == r by {
                            if i < known.len() {
                                assert(after[r]@[i] == before[rank]@[i]);
                            }
                        }
                    } else {
                        assert(before.contains_key(r));
                    }
                }
            }
            assert(self.members() =~= members.insert(stale_member)) by {
                assert forall|m: StaleMember<'a>| self.members().contains(m) implies members.insert(
                    stale_member,
                ).contains(m) by {
                    if m.rank() == rank && m != stale_member {
                        let i = choose|i: int| 0 <= i < after[rank]@.len() && after[rank]@[i] == m;
                        assert(known[i] == m);
                    }
                }
                assert forall|m: StaleMember<'a>| members.insert(stale_member).contains(
                    m,
                ) implies self.members().contains(m) by {
                    if m == stale_member {
                        assert(after[rank]@[known.len() as int] == m);
                    } else if m.rank() == rank {
                        let i = choose|i: int| 0 <= i < known.len() && known[i] == m;
                        assert(after[rank]@[i] == m);
                    }
                }
            }
        }
    }

    /// The members, the stalest first; those that are equally stale in random order.
    pub fn into_iter(self) -> (order: Vec<StaleMember<'a>>)
        requires
            self.wf(),
        ensures
            order@.no_duplicates(),
            forall|member: StaleMember<'a>| #[trigger]
                order@.contains(member) <==> self.members().contains(member),
            forall|i: int| 0 <= i < order@.len() ==> (#[trigger] order@[i]).wf(),
            forall|i: int, j: int|
                0 <= i < j < order@.len() ==> !Staleness::before(
                    (#[trigger] order@[i]).rank(),
                    (#[trigger] order@[j]).rank(),
                ),
    {
        let ghost members = self.members();
        let mut groups = self.stale_members;
        let mut order: Vec<StaleMember<'a>> = Vec::new();
        proof {
            let entries = groups.entries();
            lemma_entries_map(entries);
            assert forall|m: StaleMember<'a>| #[trigger] members.contains(m) <==> in_groups(
                entries,
                m,
            ) by {
                if members.contains(m) {
                    let i = choose|i: int|
                        0 <= i < entries.len() && #[trigger] entries[i].0.key() == m.rank();
                    assert(entries[i].1@.contains(m));
                }
                if in_groups(entries, m) {
                    let i = choose|i: int|
                        0 <= i < entries.len() && (#[trigger] entries[i]).1@.contains(m);
                    assert(groups@.contains_key(entries[i].0.key()));
                }
            }
            assert forall|i: int| 0 <= i < entries.len() implies group_of((#[trigger] entries[i]).1@, entries[i].0.key()) by {
                assert(groups@.contains_key(entries[i].0.key()));
            }
        }
        while groups.len() > 0
            invariant
                groups.wf(),
                forall|i: int|
                    0 <= i < groups.entries().len() ==> group_of(
                        (#[trigger] groups.entries()[i]).1@,
                        groups.entries()[i].0.key(),
                    ),
                order@.no_duplicates(),
                forall|m: StaleMember<'a>| #[trigger]
                    members.contains(m) <==> order@.contains(m) || in_groups(groups.entries(), m),
                forall|i: int| 0 <= i < order@.len() ==> (#[trigger] order@[i]).wf(),
                forall|i: int, j: int|
                    0 <= i < j < order@.len() ==> !Staleness::before(
                        (#[trigger] order@[i]).rank(),
                        (#[trigger] order@[j]).rank(),
                    ),
                forall|i: int, j: int|
                    0 <= i < groups.entries().len() && 0 <= j < order@.len() ==> Staleness::before(
                        (#[trigger] groups.entries()[i]).0.key(),
                        (#[trigger] order@[j]).rank(),
                    ),
            decreases groups.entries().len(),
        {
            let ghost entries = groups.entries();
            let ghost earlier = order@;
            let (staleness, mut group) = match groups.pop_last() {
                Some(entry) => entry,
                None => {
                    return order;
                },
            };
            let ghost rank = staleness.key();
            let ghost unshuffled = group@;
            let ghost last = entries.len() - 1;
            assert(entries[last] == (staleness, group));
            shuffle(&mut group);
            let ghost shuffled = group@;
            proof {
                assert(group_of(unshuffled, rank));
                lemma_permutation(unshuffled, shuffled);
            }
            order.append(&mut group);
            proof {
                let left = groups.entries();
                assert(order@ == earlier + shuffled);
                assert forall|i: int| 0 <= i < left.len() implies (#[trigger] left[i])
                    == entries[i] by {}
                assert forall|i: int| 0 <= i < shuffled.len() implies (
                #[trigger] shuffled[i]).rank() == rank && shuffled[i].wf() by {
                    let j = choose|j: int|
                        0 <= j < unshuffled.len() && unshuffled[j] == shuffled[i];
                    assert(unshuffled[j].wf());
                }
                assert(order@.no_duplicates()) by {
                    assert forall|i: int, j: int| 0 <= i < j < order@.len() implies order@[i]
                        != order@[j] by {
                        if i < earlier.len() && j >= earlier.len() {
                            assert(Staleness::before(entries[last].0.key(), earlier[i].rank()));
                            assert(shuffled[j - earlier.len()].rank() == rank);
                        }
                    }
                }
                assert forall|i: int, j: int| 0 <= i < j < order@.len() implies !Staleness::before(
                    (#[trigger] order@[i]).rank(),
                    (#[trigger] order@[j]).rank(),
                ) by {
                    if j < earlier.len() {
                        assert(order@[i] == earlier[i]);
                        assert(order@[j] == earlier[j]);
                    } else {
                        assert(order@[j] == shuffled[j - earlier.len()]);
                        if i < earlier.len() {
                            assert(order@[i] == earlier[i]);
                            assert(Staleness::before(entries[last].0.key(), earlier[i].rank()));
                        } else {
                            assert(order@[i] == shuffled[i - earlier.len()]);
                        }
                    }
                }
                assert forall|i: int| 0 <= i < order@.len() implies (#[trigger] order@[i]).wf() by {
                    if i < earlier.len() {
                        assert(order@[i] == earlier[i]);
                    } else {
                        assert(order@[i] == shuffled[i - earlier.len()]);
                    }
                }
                assert forall|i: int, j: int|
                    0 <= i < left.len() && 0 <= j < order@.len() implies Staleness::before(
                    (#[trigger] left[i]).0.key(),
                    (#[trigger] order@[j]).rank(),
                ) by {
                    assert(left[i] == entries[i]);
                    assert(Staleness::before(entries[i].0.key(), entries[last].0.key()));
                    if j < earlier.len() {
                        assert(order@[j] == earlier[j]);
                        assert(Staleness::before(entries[i].0.key(), earlier[j].rank()));
                    } else {
                        assert(order@[j] == shuffled[j - earlier.len()]);
                    }
                }
                assert forall|m: StaleMember<'a>| #[trigger] members.contains(m) <==> order@.contains(
                    m,
                ) || in_groups(left, m) by {
                    if earlier.contains(m) {
                        let i = choose|i: int| 0 <= i < earlier.len() && earlier[i] == m;
                        assert(order@[i] == m);
                    }
                    if in_groups(entries, m) {
                        let i = choose|i: int|
                            0 <= i < entries.len() && (#[trigger] entries[i]).1@.contains(m);
                        if i < last {
                            assert(left[i].1@.contains(m));
                        } else {
                            let j = choose|j: int| 0 <= j < unshuffled.len() && unshuffled[j] == m;
                            assert(shuffled.contains(unshuffled[j]));
                            let k = choose|k: int| 0 <= k < shuffled.len() && shuffled[k] == m;
                            assert(order@[earlier.len() + k] == m);
                        }
                    }
                    if order@.contains(m) {
                        let i = choose|i: int| 0 <= i < order@.len() && order@[i] == m;
                        if i < earlier.len() {
                            assert(earlier[i] == m);
                        } else {
                            assert(unshuffled.contains(shuffled[i - earlier.len()]));
                            assert(entries[last].1@.contains(m));
                        }
                    }
                    if in_groups(left, m) {
                        let i = choose|i: int|
                            0 <= i < left.len() && (#[trigger] left[i]).1@.contains(m);
                        assert(entries[i].1@.contains(m));
                    }
                }
            }
        }
        proof {
            assert forall|m: StaleMember<'a>| #[trigger] order@.contains(m) <==> members.contains(
                m,
            ) by {
                assert(members.contains(m) <==> order@.contains(m) || in_groups(
                    groups.entries(),
                    m,
                ));
            }
        }
        order
    }
}

/// Some group holds the member.
spec fn in_groups(entries: Seq<(Staleness, Vec<StaleMember>)>, member: StaleMember) -> bool {
    exists|i: int| 0 <= i < entries.len() && (#[trigger] entries[i]).1@.contains(member)
}

/// A group of members of one staleness, none twice.
spec fn group_of(group: Seq<StaleMember>, rank: StalenessRank) -> bool {
    &&& group.no_duplicates()
    &&& forall|i: int| 0 <= i < group.len() ==> (#[trigger] group[i]).wf() && group[i].rank() == rank
}

/// What a peer lacks of some members, in their order.
pub open spec fn wholes(stale_members: Seq<StaleMember>) -> Seq<MemberDeltaView> {
    stale_members.map_values(|stale_member: StaleMember| stale_member.whole())
}

/// As much of what a peer lacks, member after member, as fits the mtu.
pub fn partial_delta(stale_members: &Vec<StaleMember>, mtu: usize) -> (delta: Delta)
    requires
        forall|i: int| 0 <= i < stale_members@.len() ==> (#[trigger] stale_members@[i]).wf(),
    ensures
        largest_cut(delta@, wholes(stale_members@), mtu),
{
    let ghost whole = wholes(stale_members@);
    let mut delta_serializer = DeltaSerializer::with_mtu(mtu);
    let len = stale_members.len();
    let mut i: usize = 0;
    assert(whole.take(0) =~= Seq::empty());
    while i < len
        invariant
            i <= len,
            len == stale_members@.len(),
            whole == wholes(stale_members@),
            forall|i: int| 0 <= i < stale_members@.len() ==> (#[trigger] stale_members@[i]).wf(),
            delta_serializer.wf(),
            delta_serializer.mtu() == mtu,
            delta_serializer.delta() == whole.take(i as int),
        decreases len - i,
    {
        let stale_member = &stale_members[i];
        let ghost member = whole[i as int];
        let ghost before = whole.take(i as int);
        proof {
            assert(stale_members@[i as int].wf());
            assert(member == stale_member.whole());
            delta_serializer.lemma_within_mtu();
        }
        if !delta_serializer.try_add_member(
            stale_member.member_id.clone(),
            stale_member.from_version_excluded,
        ) {
            proof {
                lemma_cut_between(whole, i as int);
            }
            return delta_serializer.finish();
        }
        let stale = stale_member.stale_key_values();
        let count = stale.len();
        let mut j: usize = 0;
        proof {
            assert(key_value_pairs(stale@).len() == count);
            assert(member.key_values.take(0) =~= Seq::empty());
            assert(delta_serializer.delta() =~= before.push(cut_member(member, 0)));
        }
        while j < count
            invariant
                i < len,
                len == stale_members@.len(),
                j <= count,
                count == stale@.len(),
                whole == wholes(stale_members@),
                before == whole.take(i as int),
                member == whole[i as int],
                key_value_pairs(stale@) == member.key_values,
                delta_serializer.wf(),
                delta_serializer.mtu() == mtu,
                delta_serializer.delta() == before.push(cut_member(member, j as int)),
            decreases count - j,
        {
            let (key, versioned_value) = stale[j];
            let ghost kv = member.key_values[j as int];
            proof {
                assert(kv == key_value_pairs(stale@)[j as int]);
                delta_serializer.lemma_within_mtu();
            }
            let ghost part = delta_serializer.delta();
            if !delta_serializer.try_add_kv(
                key,
                &versioned_value.value,
                versioned_value.version,
            ) {
                proof {
                    lemma_cut_within(whole, i as int, j as int);
                    assert(next_op(part, whole) == Some(DeltaOp::KeyValue(kv)));
                }
                return delta_serializer.finish();
            }
            proof {
                assert(member.key_values.take(j + 1) =~= member.key_values.take(j as int).push(kv));
                assert(delta_serializer.delta() =~= before.push(cut_member(member, j + 1)));
            }
            j = j + 1;
        }
        proof {
            assert(member.key_values.take(count as int) =~= member.key_values);
            assert(whole.take(i + 1) =~= before.push(member));
        }
        i = i + 1;
    }
    proof {
        delta_serializer.lemma_within_mtu();
        assert(whole.take(len as int) =~= whole);
        lemma_cut_between(whole, len as int);
    }
    delta_serializer.finish()
}

/// A member delta with only its first key-values.
spec fn cut_member(member: MemberDeltaView, count: int) -> MemberDeltaView {
    MemberDeltaView { key_values: member.key_values.take(count), ..member }
}

/// A delta cut between two members.
proof fn lemma_cut_between(whole: Seq<MemberDeltaView>, count: int)
    requires
        0 <= count <= whole.len(),
    ensures
        cut_of(whole.take(count), whole),
{
    let part = whole.take(count);
    assert forall|i: int| 0 <= i < part.len() implies (#[trigger] part[i]).key_values
        == whole[i].key_values.take(part[i].key_values.len() as int) by {
        assert(whole[i].key_values.take(whole[i].key_values.len() as int) =~= whole[i].key_values);
    }
}

/// A delta cut within a member.
proof fn lemma_cut_within(whole: Seq<MemberDeltaView>, i: int, count: int)
    requires
        0 <= i < whole.len(),
        0 <= count <= whole[i].key_values.len(),
    ensures
        cut_of(whole.take(i).push(cut_member(whole[i], count)), whole),
{
    lemma_cut_between(whole, i);
    let front = whole.take(i);
    let part = front.push(cut_member(whole[i], count));
    assert forall|k: int| 0 <= k < part.len() implies {
        &&& (#[trigger] part[k]).member_id == whole[k].member_id
        &&& part[k].from_version_excluded == whole[k].from_version_excluded
        &&& part[k].key_values.len() <= whole[k].key_values.len()
        &&& part[k].key_values == whole[k].key_values.take(part[k].key_values.len() as int)
    } by {
        if k < i {
            assert(part[k] == front[k]);
        }
    }
    assert forall|k: int| 0 <= k < part.len() - 1 implies (#[trigger] part[k]).key_values.len()
        == whole[k].key_values.len() by {
        assert(part[k] == front[k]);
    }
}

/// A peer that holds nothing of a member is told apart from the others; what counts otherwise is
/// the member's version and the number of its key-values above the version that the peer holds.
pub proof fn law_staleness_counts_what_is_lacking(state: MemberStateView, floor: Version)
    requires
        state.valid(),
        state.key_values.len() <= usize::MAX,
    ensures
        staleness(state, floor).is_unknown <==> floor == 0,
        staleness(state, floor).max_version == state.max_version,
        staleness(state, floor).num_stale_key_values == state.key_values.dom().filter(
            |k: Seq<char>| state.key_values[k].version > floor,
        ).len(),
{
    let stale = state.key_values.dom().filter(
        |k: Seq<char>| state.key_values[k].version > floor,
    );
    assert(stale_keys(state.key_values, floor) =~= stale);
    vstd::set_lib::lemma_len_subset(stale, state.key_values.dom());
}

/// Which of two is the less stale.
pub proof fn law_order_of_staleness(a: Staleness, b: Staleness)
    ensures
        Staleness::before(a.key(), b.key()) <==> {
            ||| !a.is_unknown && b.is_unknown
            ||| a.is_unknown && b.is_unknown && a.max_version > b.max_version
            ||| !a.is_unknown && !b.is_unknown && a.num_stale_key_values < b.num_stale_key_values
        },
{
}

} // verus!
