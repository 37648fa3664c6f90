//! How the prefixes that members hold of one another's key-values grow.
use crate::delta::{increasing, KeyValueView, MemberDeltaView};
use crate::order::text_before;
use crate::staleness::{lemma_in_version_order, whole_member_delta};
use crate::state::{
    dense, has_version, in_version_order, key_of, last_values, lemma_apply_key_values, numbered,
    pair_views, stale_keys, versioned_up_to, KeyValues, MemberStateView,
};
use crate::types::{Heartbeat, MemberIdView, Version, VersionedValueView};
use vstd::prelude::*;

verus! {

/// The key-values with versions of at most `top`.
pub open spec fn up_to(key_values: KeyValues, top: Version) -> KeyValues {
    key_values.restrict(key_values.dom().filter(|k: Seq<char>| key_values[k].version <= top))
}

/// `held` is what a member holds that has received the key-values of `source` up to some
/// version.
pub open spec fn prefix_of(held: MemberStateView, source: MemberStateView) -> bool {
    &&& held.member_id == source.member_id
    &&& held.max_version <= source.max_version
    &&& held.key_values == up_to(source.key_values, held.max_version)
}

/// `member_delta` carries the first key-values, none left out, of what `source` has above the
/// version that it continues from.
pub open spec fn piece_of(member_delta: MemberDeltaView, source: MemberStateView) -> bool {
    let whole = whole_member_delta(source, member_delta.from_version_excluded).key_values;
    &&& member_delta.key_values.len() <= whole.len()
    &&& member_delta.key_values == whole.take(member_delta.key_values.len() as int)
}

/// The listing in version order: what is listed is held and lies in the range, versions
/// increase strictly, and nothing is left out.
pub proof fn lemma_listed(key_values: KeyValues, floor: nat, top: nat)
    requires
        top <= Version::MAX,
    ensures
        forall|i: int|
            0 <= i < in_version_order(key_values, floor, top).len() ==> {
                let kv = #[trigger] in_version_order(key_values, floor, top)[i];
                &&& key_values.contains_key(kv.key)
                &&& key_values[kv.key].value == kv.value
                &&& key_values[kv.key].version == kv.version
                &&& floor < kv.version <= top
            },
        forall|i: int, j: int|
            0 <= i < j < in_version_order(key_values, floor, top).len() ==> (
            #[trigger] in_version_order(key_values, floor, top)[i]).version < (
            #[trigger] in_version_order(key_values, floor, top)[j]).version,
        forall|version: Version|
            floor < version <= top && #[trigger] has_version(key_values, version) ==> exists|i: int|
                0 <= i < in_version_order(key_values, floor, top).len() && (
                #[trigger] in_version_order(key_values, floor, top)[i]).version == version,
    decreases top,
{
    let listed = in_version_order(key_values, floor, top);
    if top > floor {
        let below = in_version_order(key_values, floor, (top - 1) as nat);
        lemma_listed(key_values, floor, (top - 1) as nat);
        assert forall|version: Version|
            floor < version <= top && #[trigger] has_version(
                key_values,
                version,
            ) implies exists|i: int|
            0 <= i < listed.len() && (#[trigger] listed[i]).version == version by {
            if version == top {
                assert(listed[listed.len() - 1].version == version);
            } else {
                let i = choose|i: int|
                    0 <= i < below.len() && (#[trigger] below[i]).version == version;
                assert(listed[i].version == version);
            }
        }
    }
}

/// What the versions of a listing's first key-values go up to.
spec fn reached(kvs: Seq<KeyValueView>, from: Version, count: int) -> Version {
    if count == 0 {
        from
    } else {
        kvs[count - 1].version
    }
}

spec fn at_least(a: Version, b: Version) -> Version {
    if a >= b {
        a
    } else {
        b
    }
}

proof fn lemma_extend(
    held: MemberStateView,
    source: MemberStateView,
    from: Version,
    count: int,
)
    requires
        source.valid(),
        held.valid(),
        prefix_of(held, source),
        from <= held.max_version,
        0 <= count <= whole_member_delta(source, from).key_values.len(),
    ensures
        ({
            let kvs = whole_member_delta(source, from).key_values;
            let after = held.apply_key_values(kvs.take(count));
            &&& prefix_of(after, source)
            &&& after.max_version == at_least(held.max_version, reached(kvs, from, count))
        }),
    decreases count,
{
    let kvs = whole_member_delta(source, from).key_values;
    lemma_listed(source.key_values, from as nat, source.max_version as nat);
    if count == 0 {
        assert(kvs.take(0) =~= Seq::empty());
    } else {
        let before = held.apply_key_values(kvs.take(count - 1));
        let kv = kvs[count - 1];
        lemma_extend(held, source, from, count - 1);
        assert(kvs.take(count).drop_last() =~= kvs.take(count - 1));
        if count >= 2 {
            assert(kvs[count - 2].version < kvs[count - 1].version);
        }
        if kv.version > before.max_version {
            let after = before.apply_key_value(kv);
            assert(source.key_values.contains_key(kv.key));
            assert forall|k: Seq<char>| #[trigger]
                source.key_values.contains_key(k) && source.key_values[k].version
                    <= kv.version implies k == kv.key || source.key_values[k].version
                <= before.max_version by {
                let version = source.key_values[k].version;
                if before.max_version < version {
                    assert(has_version(source.key_values, version));
                    let i = choose|i: int|
                        0 <= i < kvs.len() && (#[trigger] kvs[i]).version == version;
                    if i < count - 1 {
                        if i < count - 2 {
                            assert(kvs[i].version < kvs[count - 2].version);
                        }
                    } else if i > count - 1 {
                        assert(kvs[count - 1].version < kvs[i].version);
                    }
                    assert(source.key_values[k].version == source.key_values[kv.key].version);
                }
            }
            assert(after.key_values =~= up_to(source.key_values, after.max_version));
        }
    }
}

/// Receiving the first key-values of what `source` has above a version that is held extends
/// the prefix held: it is again a prefix of `source`, up to the last version received.
pub proof fn law_delta_extends_prefix(
    held: MemberStateView,
    source: MemberStateView,
    member_delta: MemberDeltaView,
)
    requires
        source.valid(),
        held.valid(),
        prefix_of(held, source),
        member_delta.from_version_excluded <= held.max_version,
        piece_of(member_delta, source),
    ensures
        prefix_of(held.apply_delta(member_delta), source),
        held.apply_delta(member_delta).max_version == if held.max_version
            >= member_delta.reached_version() {
            held.max_version
        } else {
            member_delta.reached_version()
        },
        held.apply_delta(member_delta).heartbeat == held.heartbeat,
{
    let from = member_delta.from_version_excluded;
    let count = member_delta.key_values.len() as int;
    lemma_extend(held, source, from, count);
    lemma_apply_key_values(held, member_delta.key_values);
}

/// Receiving all that `source` has above a version that is held catches up with `source`.
pub proof fn law_whole_delta_catches_up(
    held: MemberStateView,
    source: MemberStateView,
    from: Version,
)
    requires
        source.valid(),
        held.valid(),
        prefix_of(held, source),
        from <= held.max_version,
    ensures
        held.apply_delta(whole_member_delta(source, from)) == (MemberStateView {
            heartbeat: held.heartbeat,
            ..source
        }),
{
    let whole = whole_member_delta(source, from);
    let kvs = whole.key_values;
    assert(kvs.take(kvs.len() as int) =~= kvs);
    law_delta_extends_prefix(held, source, whole);
    lemma_listed(source.key_values, from as nat, source.max_version as nat);
    let after = held.apply_delta(whole);
    if source.max_version > from {
        assert(has_version(source.key_values, source.max_version));
        let i = choose|i: int|
            0 <= i < kvs.len() && (#[trigger] kvs[i]).version == source.max_version;
        if i < kvs.len() - 1 {
            assert(kvs[i].version < kvs[kvs.len() - 1].version);
        }
    }
    assert(after.max_version == source.max_version);
    assert(after.key_values =~= source.key_values);
}

/// A prefix of a state that holds every version up to its highest holds every version up to
/// its own highest.
pub proof fn law_prefix_is_dense(held: MemberStateView, source: MemberStateView)
    requires
        prefix_of(held, source),
        dense(source.key_values, source.max_version),
    ensures
        dense(held.key_values, held.max_version),
{
    assert forall|version: Version| 1 <= version <= held.max_version implies #[trigger] has_version(
        held.key_values,
        version,
    ) by {
        assert(has_version(source.key_values, version));
        let k = key_of(source.key_values, version);
        assert(held.key_values.contains_key(k));
    }
}

/// Where every version up to the highest is held, the highest version is the number of
/// key-values.
pub proof fn law_dense_count(key_values: KeyValues, max_version: Version)
    requires
        versioned_up_to(key_values, max_version),
        dense(key_values, max_version),
    ensures
        key_values.len() == max_version,
    decreases max_version,
{
    if max_version == 0 {
        assert(key_values.dom() =~= Set::empty()) by {
            assert forall|k: Seq<char>| !key_values.dom().contains(k) by {
                if key_values.contains_key(k) {
                    assert(1 <= key_values[k].version <= max_version);
                }
            }
        }
    } else {
        assert(has_version(key_values, max_version));
        let last = key_of(key_values, max_version);
        let fewer = key_values.remove(last);
        let below = (max_version - 1) as Version;
        assert forall|k: Seq<char>| #[trigger] fewer.contains_key(k) implies 1 <= fewer[k].version
            <= below by {
            assert(key_values.contains_key(k));
            if key_values[k].version == max_version {
                assert(key_values[k].version == key_values[last].version);
            }
        }
        assert forall|k: Seq<char>, l: Seq<char>|
            #![trigger fewer[k], fewer[l]]
            fewer.contains_key(k) && fewer.contains_key(l) && fewer[k].version
                == fewer[l].version implies k == l by {
            assert(key_values[k].version == key_values[l].version);
        }
        assert forall|version: Version| 1 <= version <= below implies #[trigger] has_version(
            fewer,
            version,
        ) by {
            assert(has_version(key_values, version));
            let k = key_of(key_values, version);
            assert(fewer.contains_key(k));
        }
        law_dense_count(fewer, below);
    }
}

/// What a state that holds every version up to its highest has above a version is the
/// contiguous continuation of that version.
pub proof fn law_whole_delta_is_contiguous(state: MemberStateView, from: Version)
    requires
        dense(state.key_values, state.max_version),
        from <= state.max_version,
    ensures
        whole_member_delta(state, from).key_values.len() == state.max_version - from,
        forall|i: int|
            0 <= i < whole_member_delta(state, from).key_values.len() ==> (
            #[trigger] whole_member_delta(state, from).key_values[i]).version == from + 1 + i,
{
    lemma_contiguous(state.key_values, from as nat, state.max_version as nat);
}

proof fn lemma_contiguous(key_values: KeyValues, floor: nat, top: nat)
    requires
        floor <= top <= Version::MAX,
        forall|version: Version|
            floor < version <= top ==> #[trigger] has_version(key_values, version),
    ensures
        in_version_order(key_values, floor, top).len() == top - floor,
        forall|i: int|
            0 <= i < top - floor ==> (#[trigger] in_version_order(
                key_values,
                floor,
                top,
            )[i]).version == floor + 1 + i,
    decreases top,
{
    if floor < top {
        lemma_contiguous(key_values, floor, (top - 1) as nat);
        assert(has_version(key_values, top as Version));
    }
}

/// What a state has above a version increases strictly.
pub proof fn law_whole_delta_increases(state: MemberStateView, from: Version)
    ensures
        increasing(whole_member_delta(state, from)),
{
    lemma_listed(state.key_values, from as nat, state.max_version as nat);
}

proof fn lemma_held_versions_change_nothing(state: MemberStateView, kvs: Seq<KeyValueView>)
    requires
        forall|i: int| 0 <= i < kvs.len() ==> (#[trigger] kvs[i]).version <= state.max_version,
    ensures
        state.apply_key_values(kvs) == state,
    decreases kvs.len(),
{
    if kvs.len() > 0 {
        assert forall|i: int| 0 <= i < kvs.drop_last().len() implies (
        #[trigger] kvs.drop_last()[i]).version <= state.max_version by {
            assert(kvs[i].version <= state.max_version);
        }
        lemma_held_versions_change_nothing(state, kvs.drop_last());
        assert(kvs[kvs.len() - 1].version <= state.max_version);
    }
}

/// A delta that carries only versions that are held changes nothing.
pub proof fn law_held_versions_change_nothing(state: MemberStateView, member_delta: MemberDeltaView)
    requires
        forall|i: int|
            0 <= i < member_delta.key_values.len() ==> (
            #[trigger] member_delta.key_values[i]).version <= state.max_version,
    ensures
        state.apply_delta(member_delta) == state,
{
    lemma_held_versions_change_nothing(state, member_delta.key_values);
}

/// A delta that starts past the versions that are held changes nothing.
pub proof fn law_gap_is_refused(state: MemberStateView, member_delta: MemberDeltaView)
    requires
        member_delta.from_version_excluded > state.max_version,
    ensures
        state.apply_delta(member_delta) == state,
{
}

/// Applying a delta never lowers the version, and keeps the identity and the heartbeat.
pub proof fn law_delta_never_goes_back(state: MemberStateView, member_delta: MemberDeltaView)
    requires
        state.valid(),
    ensures
        state.apply_delta(member_delta).valid(),
        state.apply_delta(member_delta).max_version >= state.max_version,
        state.apply_delta(member_delta).member_id == state.member_id,
        state.apply_delta(member_delta).heartbeat == state.heartbeat,
{
    lemma_apply_key_values(state, member_delta.key_values);
}

proof fn lemma_applied_versions_are_held(state: MemberStateView, kvs: Seq<KeyValueView>)
    ensures
        state.apply_key_values(kvs).max_version >= state.max_version,
        forall|i: int|
            0 <= i < kvs.len() ==> (#[trigger] kvs[i]).version <= state.apply_key_values(
                kvs,
            ).max_version,
    decreases kvs.len(),
{
    if kvs.len() > 0 {
        let front = kvs.drop_last();
        lemma_applied_versions_are_held(state, front);
        assert forall|i: int| 0 <= i < kvs.len() implies (#[trigger] kvs[i]).version
            <= state.apply_key_values(kvs).max_version by {
            if i < front.len() {
                assert(front[i].version <= state.apply_key_values(front).max_version);
            }
        }
    }
}

/// A delta that arrives twice does what it does once.
pub proof fn law_duplicate_delta_changes_nothing(
    state: MemberStateView,
    member_delta: MemberDeltaView,
)
    ensures
        state.apply_delta(member_delta).apply_delta(member_delta) == state.apply_delta(
            member_delta,
        ),
{
    if member_delta.from_version_excluded <= state.max_version {
        lemma_applied_versions_are_held(state, member_delta.key_values);
        lemma_held_versions_change_nothing(
            state.apply_delta(member_delta),
            member_delta.key_values,
        );
    }
}

/// Heartbeats never go back.
pub proof fn law_heartbeat_never_goes_back(
    state: MemberStateView,
    heartbeat: Heartbeat,
)
    ensures
        state.hear(heartbeat).heartbeat.0 >= state.heartbeat.0,
        state.hear(heartbeat).heartbeat.0 >= heartbeat.0,
{
}

/// Of two prefixes of one state, the shorter is a prefix of the longer.
pub proof fn law_prefixes_are_comparable(
    a: MemberStateView,
    b: MemberStateView,
    source: MemberStateView,
)
    requires
        prefix_of(a, source),
        prefix_of(b, source),
        a.max_version <= b.max_version,
    ensures
        prefix_of(a, b),
{
    assert(a.key_values =~= up_to(b.key_values, a.max_version));
}

proof fn lemma_listing_is_prefix(key_values: KeyValues, floor: nat, top: nat, higher: nat)
    requires
        top <= higher,
    ensures
        in_version_order(key_values, floor, top).len() <= in_version_order(
            key_values,
            floor,
            higher,
        ).len(),
        in_version_order(key_values, floor, top) == in_version_order(
            key_values,
            floor,
            higher,
        ).take(in_version_order(key_values, floor, top).len() as int),
    decreases higher,
{
    let shorter = in_version_order(key_values, floor, top);
    let longer = in_version_order(key_values, floor, higher);
    if top == higher {
        assert(longer.take(longer.len() as int) =~= longer);
    } else {
        let below = in_version_order(key_values, floor, (higher - 1) as nat);
        lemma_listing_is_prefix(key_values, floor, top, (higher - 1) as nat);
        assert(longer.take(shorter.len() as int) =~= below.take(shorter.len() as int));
    }
}

/// A piece of what a prefix holds is a piece of what its source holds.
pub proof fn law_piece_of_a_prefix(
    member_delta: MemberDeltaView,
    held: MemberStateView,
    source: MemberStateView,
)
    requires
        source.valid(),
        prefix_of(held, source),
        piece_of(member_delta, held),
    ensures
        piece_of(member_delta, source),
{
    let from = member_delta.from_version_excluded as nat;
    let top = held.max_version as nat;
    let listed = in_version_order(held.key_values, from, top);
    let source_listed = in_version_order(source.key_values, from, source.max_version as nat);
    lemma_listed(held.key_values, from, top);
    assert forall|k: Seq<char>| #[trigger]
        source.key_values.contains_key(k) && from < source.key_values[k].version
            <= top implies exists|i: int| 0 <= i < listed.len() && (#[trigger] listed[i]).key
        == k by {
        let version = source.key_values[k].version;
        assert(held.key_values.contains_key(k));
        assert(has_version(held.key_values, version));
        let i = choose|i: int| 0 <= i < listed.len() && (#[trigger] listed[i]).version == version;
        assert(source.key_values[listed[i].key].version == source.key_values[k].version);
    }
    lemma_in_version_order(source.key_values, from, top, listed);
    lemma_listing_is_prefix(source.key_values, from, top, source.max_version as nat);
    let count = member_delta.key_values.len() as int;
    assert(listed.take(count) =~= source_listed.take(count));
}

/// The `j`-th of some key-values has a higher version than `held` and than all before it.
pub open spec fn raises(held: Version, kvs: Seq<KeyValueView>, j: int) -> bool {
    &&& 0 <= j < kvs.len()
    &&& kvs[j].version > held
    &&& forall|i: int| 0 <= i < j ==> (#[trigger] kvs[i]).version < kvs[j].version
}

proof fn lemma_highest(state: MemberStateView, kvs: Seq<KeyValueView>)
    ensures
        ({
            let after = state.apply_key_values(kvs);
            &&& after.member_id == state.member_id
            &&& after.heartbeat == state.heartbeat
            &&& after.max_version >= state.max_version
            &&& after.max_version == state.max_version || exists|j: int|
                0 <= j < kvs.len() && (#[trigger] kvs[j]).version == after.max_version
            &&& forall|j: int|
                0 <= j < kvs.len() ==> (#[trigger] kvs[j]).version <= after.max_version
        }),
    decreases kvs.len(),
{
    if kvs.len() > 0 {
        let front = kvs.drop_last();
        let n = kvs.len() - 1;
        let before = state.apply_key_values(front);
        let after = state.apply_key_values(kvs);
        lemma_highest(state, front);
        assert(after == before.apply_key_value(kvs[n]));
        assert forall|j: int| 0 <= j < kvs.len() implies (#[trigger] kvs[j]).version
            <= after.max_version by {
            if j < n {
                assert(front[j] == kvs[j]);
            }
        }
        if after.max_version != state.max_version {
            if kvs[n].version <= before.max_version {
                let j = choose|j: int|
                    0 <= j < front.len() && (#[trigger] front[j]).version == before.max_version;
                assert(kvs[j].version == after.max_version);
            }
        }
    }
}

proof fn lemma_raises_front(held: Version, kvs: Seq<KeyValueView>, j: int)
    requires
        0 <= j < kvs.len() - 1,
    ensures
        raises(held, kvs.drop_last(), j) <==> raises(held, kvs, j),
{
    let front = kvs.drop_last();
    assert forall|i: int| 0 <= i <= j implies #[trigger] front[i] == kvs[i] by {}
    if raises(held, front, j) {
        assert forall|i: int| 0 <= i < j implies (#[trigger] kvs[i]).version < kvs[j].version by {
            assert(front[i].version < front[j].version);
        }
    }
    if raises(held, kvs, j) {
        assert forall|i: int| 0 <= i < j implies (#[trigger] front[i]).version
            < front[j].version by {
            assert(kvs[i].version < kvs[j].version);
        }
    }
}

proof fn lemma_raises_last(state: MemberStateView, kvs: Seq<KeyValueView>)
    requires
        kvs.len() > 0,
    ensures
        raises(state.max_version, kvs, kvs.len() - 1) <==> kvs.last().version
            > state.apply_key_values(kvs.drop_last()).max_version,
{
    let front = kvs.drop_last();
    let n = kvs.len() - 1;
    let before = state.apply_key_values(front);
    lemma_highest(state, front);
    if kvs[n].version > before.max_version {
        assert forall|i: int| 0 <= i < n implies (#[trigger] kvs[i]).version < kvs[n].version by {
            assert(front[i] == kvs[i]);
        }
    }
    if raises(state.max_version, kvs, n) && before.max_version != state.max_version {
        let j = choose|j: int|
            0 <= j < front.len() && (#[trigger] front[j]).version == before.max_version;
        assert(kvs[j].version < kvs[n].version);
    }
}

proof fn lemma_taken(state: MemberStateView, kvs: Seq<KeyValueView>, j: int)
    requires
        raises(state.max_version, kvs, j),
        forall|l: int|
            j < l && #[trigger] raises(state.max_version, kvs, l) ==> kvs[l].key != kvs[j].key,
    ensures
        state.apply_key_values(kvs).key_values.contains_key(kvs[j].key),
        state.apply_key_values(kvs).key_values[kvs[j].key] == (VersionedValueView {
            value: kvs[j].value,
            version: kvs[j].version,
        }),
    decreases kvs.len(),
{
    let front = kvs.drop_last();
    let n = kvs.len() - 1;
    let held = state.max_version;
    let before = state.apply_key_values(front);
    lemma_raises_last(state, kvs);
    assert(state.apply_key_values(kvs) == before.apply_key_value(kvs[n]));
    if j < n {
        lemma_raises_front(held, kvs, j);
        assert(front[j] == kvs[j]);
        assert forall|l: int| j < l && #[trigger] raises(held, front, l) implies front[l].key
            != front[j].key by {
            lemma_raises_front(held, kvs, l);
            assert(front[l] == kvs[l]);
        }
        lemma_taken(state, front, j);
        if raises(held, kvs, n) {
            assert(kvs[n].key != kvs[j].key);
        }
    }
}

proof fn lemma_kept(state: MemberStateView, kvs: Seq<KeyValueView>, k: Seq<char>)
    requires
        forall|j: int| #[trigger] raises(state.max_version, kvs, j) ==> kvs[j].key != k,
    ensures
        state.apply_key_values(kvs).key_values.contains_key(k)
            <==> state.key_values.contains_key(k),
        state.key_values.contains_key(k) ==> state.apply_key_values(kvs).key_values[k]
            == state.key_values[k],
    decreases kvs.len(),
{
    if kvs.len() > 0 {
        let front = kvs.drop_last();
        let n = kvs.len() - 1;
        let held = state.max_version;
        lemma_raises_last(state, kvs);
        assert(state.apply_key_values(kvs) == state.apply_key_values(front).apply_key_value(
            kvs[n],
        ));
        assert forall|l: int| #[trigger] raises(held, front, l) implies front[l].key != k by {
            lemma_raises_front(held, kvs, l);
            assert(front[l] == kvs[l]);
        }
        lemma_kept(state, front, k);
        if raises(held, kvs, n) {
            assert(kvs[n].key != k);
        }
    }
}

/// Of a delta that leaves no gap, a key-value with a version above the one held and above all
/// before it is taken over as it is, unless a later one of its key is.
pub proof fn law_newer_key_values_are_taken(
    state: MemberStateView,
    member_delta: MemberDeltaView,
    j: int,
)
    requires
        member_delta.from_version_excluded <= state.max_version,
        raises(state.max_version, member_delta.key_values, j),
        forall|l: int|
            j < l && #[trigger] raises(state.max_version, member_delta.key_values, l)
                ==> member_delta.key_values[l].key != member_delta.key_values[j].key,
    ensures
        ({
            let kv = member_delta.key_values[j];
            let after = state.apply_delta(member_delta);
            &&& after.key_values.contains_key(kv.key)
            &&& after.key_values[kv.key].value == kv.value
            &&& after.key_values[kv.key].version == kv.version
            &&& after.max_version >= kv.version
        }),
{
    lemma_taken(state, member_delta.key_values, j);
    lemma_highest(state, member_delta.key_values);
}

/// A key of which a delta carries no version above the one held and above all before it keeps
/// what it is bound to, or stays absent.
pub proof fn law_other_keys_are_kept(
    state: MemberStateView,
    member_delta: MemberDeltaView,
    k: Seq<char>,
)
    requires
        forall|j: int| #[trigger]
            raises(state.max_version, member_delta.key_values, j)
                ==> member_delta.key_values[j].key != k,
    ensures
        state.apply_delta(member_delta).key_values.contains_key(k)
            <==> state.key_values.contains_key(k),
        state.key_values.contains_key(k) ==> state.apply_delta(member_delta).key_values[k]
            == state.key_values[k],
{
    lemma_kept(state, member_delta.key_values, k);
}

/// A delta that leaves no gap raises the version to the highest one it carries, if that is
/// higher than the one held; identity and heartbeat stay.
pub proof fn law_version_becomes_the_highest(state: MemberStateView, member_delta: MemberDeltaView)
    requires
        member_delta.from_version_excluded <= state.max_version,
    ensures
        ({
            let after = state.apply_delta(member_delta);
            let kvs = member_delta.key_values;
            &&& after.member_id == state.member_id
            &&& after.heartbeat == state.heartbeat
            &&& after.max_version >= state.max_version
            &&& forall|j: int|
                0 <= j < kvs.len() ==> (#[trigger] kvs[j]).version <= after.max_version
            &&& after.max_version == state.max_version || exists|j: int|
                0 <= j < kvs.len() && (#[trigger] kvs[j]).version == after.max_version
        }),
{
    lemma_highest(state, member_delta.key_values);
}

/// A heartbeat heard of a member replaces the one known if that is zero or earlier, and
/// changes nothing else.
pub proof fn law_latest_heartbeat_is_known(state: MemberStateView, heartbeat: Heartbeat)
    ensures
        state.heartbeat.0 == 0 ==> state.hear(heartbeat).heartbeat == heartbeat,
        state.heartbeat.0 != 0 && heartbeat.0 > state.heartbeat.0 ==> state.hear(
            heartbeat,
        ).heartbeat == heartbeat,
        state.heartbeat.0 != 0 && heartbeat.0 <= state.heartbeat.0 ==> state.hear(
            heartbeat,
        ).heartbeat == state.heartbeat,
        state.hear(heartbeat).member_id == state.member_id,
        state.hear(heartbeat).key_values == state.key_values,
        state.hear(heartbeat).max_version == state.max_version,
{
}

/// A digest entry tells the heartbeat and the version.
pub proof fn law_digest_entry_tells_the_state(state: MemberStateView)
    ensures
        state.digest().heartbeat.0 == state.heartbeat.0,
        state.digest().max_version == state.max_version,
{
}

/// Of a member of which only the identity is known, nothing else is.
pub proof fn law_unheard_member_is_blank(id: MemberIdView)
    ensures
        MemberStateView::unheard(id).member_id == id,
        MemberStateView::unheard(id).heartbeat.0 == 0,
        MemberStateView::unheard(id).max_version == 0,
        forall|k: Seq<char>| !#[trigger] MemberStateView::unheard(id).key_values.contains_key(k),
{
}

/// Of the pairs with a key, the last one gives its value.
pub proof fn law_last_value_wins(pairs: Seq<(Seq<char>, Seq<char>)>, i: int)
    requires
        0 <= i < pairs.len(),
        forall|j: int| i < j < pairs.len() ==> (#[trigger] pairs[j]).0 != pairs[i].0,
    ensures
        last_values(pairs).contains_key(pairs[i].0),
        last_values(pairs)[pairs[i].0] == pairs[i].1,
    decreases pairs.len(),
{
    let front = pairs.drop_last();
    let n = pairs.len() - 1;
    if i < n {
        assert(front[i] == pairs[i]);
        assert(pairs[n].0 != pairs[i].0);
        assert forall|j: int| i < j < front.len() implies (#[trigger] front[j]).0 != front[i].0 by {
            assert(pairs[j].0 != pairs[i].0);
        }
        law_last_value_wins(front, i);
    }
}

/// A key that no pair has gets no value.
pub proof fn law_unlisted_key_has_no_value(pairs: Seq<(Seq<char>, Seq<char>)>, k: Seq<char>)
    requires
        forall|i: int| 0 <= i < pairs.len() ==> (#[trigger] pairs[i]).0 != k,
    ensures
        !last_values(pairs).contains_key(k),
    decreases pairs.len(),
{
    if pairs.len() > 0 {
        let front = pairs.drop_last();
        assert forall|i: int| 0 <= i < front.len() implies (#[trigger] front[i]).0 != k by {
            assert(pairs[i].0 != k);
        }
        law_unlisted_key_has_no_value(front, k);
        assert(pairs[pairs.len() - 1].0 != k);
    }
}

/// Key-values that are numbered hold the given values, and of two keys the one whose bytes
/// come first has the lower version; versions lie between one and the number of keys.
pub proof fn law_numbering_follows_the_keys(
    key_values: KeyValues,
    values: Map<Seq<char>, Seq<char>>,
    k: Seq<char>,
    l: Seq<char>,
)
    requires
        numbered(key_values, values),
    ensures
        key_values.contains_key(k) <==> values.contains_key(k),
        values.contains_key(k) ==> key_values[k].value == values[k],
        values.contains_key(k) ==> 1 <= key_values[k].version <= values.len(),
        values.contains_key(k) && values.contains_key(l) && text_before(k, l)
            ==> key_values[k].version < key_values[l].version,
{
    assert(key_values.dom().contains(k) <==> values.dom().contains(k));
    assert(key_values.dom().contains(l) <==> values.dom().contains(l));
}

/// The keys that are stale above a version are those with a higher one.
pub proof fn law_stale_keys_are_above(key_values: KeyValues, floor: Version, k: Seq<char>)
    ensures
        stale_keys(key_values, floor).contains(k) <==> key_values.contains_key(k)
            && key_values[k].version > floor,
{
}

/// Of the pairs that a member is given, those with a key that no later pair has are held.
pub proof fn law_given_pairs_are_held(
    pairs: Seq<(String, String)>,
    key_values: KeyValues,
    i: int,
)
    requires
        numbered(key_values, last_values(pair_views(pairs))),
        0 <= i < pairs.len(),
        forall|j: int| i < j < pairs.len() ==> (#[trigger] pairs[j]).0@ != pairs[i].0@,
    ensures
        key_values.contains_key(pairs[i].0@),
        key_values[pairs[i].0@].value == pairs[i].1@,
{
    let views = pair_views(pairs);
    assert forall|j: int| i < j < views.len() implies (#[trigger] views[j]).0 != views[i].0 by {
        assert(pairs[j].0@ != pairs[i].0@);
    }
    law_last_value_wins(views, i);
    law_numbering_follows_the_keys(key_values, last_values(views), pairs[i].0@, pairs[i].0@);
}

/// A member holds no key that no pair given to it has.
pub proof fn law_only_given_keys_are_held(
    pairs: Seq<(String, String)>,
    key_values: KeyValues,
    k: Seq<char>,
)
    requires
        numbered(key_values, last_values(pair_views(pairs))),
        forall|i: int| 0 <= i < pairs.len() ==> (#[trigger] pairs[i]).0@ != k,
    ensures
        !key_values.contains_key(k),
{
    let views = pair_views(pairs);
    assert forall|i: int| 0 <= i < views.len() implies (#[trigger] views[i]).0 != k by {
        assert(pairs[i].0@ != k);
    }
    law_unlisted_key_has_no_value(views, k);
    law_numbering_follows_the_keys(key_values, last_values(views), k, k);
}

} // verus!
