//! What a delta that answers a digest carries, and what applying it achieves.
use crate::cluster::{
    apply_deltas, apply_member_delta, digests, gossip_order, known_version, partial_delta_for,
    shareable, valid_states, whole_delta, MemberStates,
};
use crate::delta::{
    cut_of, delta_ops, encode_delta, encode_op, encode_ops, increasing, largest_cut,
    lemma_delta_ops_with_op, lemma_encode_ops_concat, member_ops, next_op, with_op, DeltaOp,
    MemberDeltaView,
};
use crate::digest::MemberDigest;
use crate::order::OrderedKey;
use crate::prefix::{
    law_delta_extends_prefix, law_delta_never_goes_back, law_duplicate_delta_changes_nothing,
    law_held_versions_change_nothing, law_piece_of_a_prefix, law_whole_delta_catches_up,
    law_whole_delta_increases, lemma_listed, piece_of, prefix_of,
};
use crate::serialize::saturated;
use crate::staleness::{
    law_staleness_counts_what_is_lacking, staleness, whole_member_delta, Staleness,
};
use crate::state::{has_version, MemberStateView};
use crate::types::{MemberIdView, Version};
use vstd::prelude::*;

verus! {

/// No member occurs twice in a delta.
pub open spec fn distinct_members(delta: Seq<MemberDeltaView>) -> bool {
    forall|i: int, j: int|
        0 <= i < j < delta.len() ==> (#[trigger] delta[i]).member_id != (
        #[trigger] delta[j]).member_id
}

proof fn lemma_member_cut_len(part: MemberDeltaView, whole: MemberDeltaView)
    requires
        part.member_id == whole.member_id,
        part.from_version_excluded == whole.from_version_excluded,
        part.key_values.len() <= whole.key_values.len(),
        part.key_values == whole.key_values.take(part.key_values.len() as int),
    ensures
        encode_ops(member_ops(part)).len() <= encode_ops(member_ops(whole)).len(),
{
    let count = member_ops(part).len() as int;
    let rest = member_ops(whole).skip(count);
    assert(member_ops(whole) =~= member_ops(part) + rest);
    lemma_encode_ops_concat(member_ops(part), rest);
}

/// A cut of a delta is no longer than the delta.
pub proof fn lemma_cut_len(part: Seq<MemberDeltaView>, whole: Seq<MemberDeltaView>)
    requires
        cut_of(part, whole),
    ensures
        encode_delta(part).len() <= encode_delta(whole).len(),
    decreases whole.len(),
{
    if whole.len() > 0 {
        let front = whole.drop_last();
        let last = whole.last();
        lemma_encode_ops_concat(delta_ops(front), member_ops(last));
        if part.len() < whole.len() {
            assert forall|i: int| 0 <= i < part.len() implies #[trigger] front[i] == whole[i] by {}
            assert(cut_of(part, front));
            lemma_cut_len(part, front);
        } else {
            assert(part.drop_last() =~= front) by {
                assert forall|i: int| 0 <= i < front.len() implies part.drop_last()[i]
                    == #[trigger] front[i] by {
                    assert(part[i].key_values.len() == whole[i].key_values.len());
                    assert(part[i].key_values =~= whole[i].key_values);
                }
            }
            lemma_encode_ops_concat(delta_ops(front), member_ops(part.last()));
            assert(part.last() == part[part.len() - 1]);
            lemma_member_cut_len(part.last(), last);
        }
    }
}

/// Where a delta fits the mtu as a whole, nothing of it is cut off.
pub proof fn law_nothing_is_cut_off(
    part: Seq<MemberDeltaView>,
    whole: Seq<MemberDeltaView>,
    mtu: usize,
)
    requires
        largest_cut(part, whole, mtu),
        saturated(encode_delta(whole).len()) <= mtu,
    ensures
        part == whole,
{
    if next_op(part, whole) is Some {
        let op = next_op(part, whole)->Some_0;
        let longer = with_op(part, op);
        lemma_delta_ops_with_op(part, op);
        let last = part.len() - 1;
        match op {
            DeltaOp::KeyValue(kv) => {
                let count = part[last].key_values.len() as int;
                assert(longer[last].key_values =~= whole[last].key_values.take(count + 1));
                assert forall|i: int| 0 <= i < last implies #[trigger] longer[i] == part[i] by {}
            },
            DeltaOp::Member { .. } => {
                assert(longer[part.len() as int].key_values
                    =~= whole[part.len() as int].key_values.take(0));
                assert forall|i: int| 0 <= i < part.len() implies #[trigger] longer[i]
                    == part[i] by {}
            },
        }
        assert(cut_of(longer, whole));
        lemma_cut_len(longer, whole);
    }
    assert forall|i: int| 0 <= i < whole.len() implies part[i] == #[trigger] whole[i] by {
        assert(part[i].key_values.len() == whole[i].key_values.len());
        assert(part[i].key_values =~= whole[i].key_values);
    }
    assert(part =~= whole);
}

/// A delta that answers a digest fits the mtu. It names no member twice, none that is
/// excluded, and none of which the digest's sender lacks nothing. What it carries of a member
/// continues the version that the digest gives, without leaving out a key-value, and in
/// strictly increasing versions.
pub proof fn law_partial_delta_continues_the_digest(
    states: MemberStates,
    digest: Map<MemberIdView, MemberDigest>,
    exclude: Set<MemberIdView>,
    mtu: usize,
    delta: Seq<MemberDeltaView>,
)
    requires
        valid_states(states),
        partial_delta_for(states, digest, exclude, mtu, delta),
    ensures
        saturated(encode_delta(delta).len()) <= mtu,
        distinct_members(delta),
        forall|i: int|
            0 <= i < delta.len() ==> {
                let id = (#[trigger] delta[i]).member_id;
                let whole = whole_member_delta(states[id], known_version(digest, id)).key_values;
                &&& shareable(states, digest, exclude, id)
                &&& delta[i].from_version_excluded == known_version(digest, id)
                &&& delta[i].key_values.len() <= whole.len()
                &&& delta[i].key_values == whole.take(delta[i].key_values.len() as int)
                &&& increasing(delta[i])
            },
{
    let order = choose|order: Seq<MemberIdView>| #[trigger]
        gossip_order(states, digest, exclude, order) && largest_cut(
            delta,
            whole_delta(states, digest, order),
            mtu,
        );
    let whole = whole_delta(states, digest, order);
    assert forall|i: int| 0 <= i < delta.len() implies {
        let id = (#[trigger] delta[i]).member_id;
        let kvs = whole_member_delta(states[id], known_version(digest, id)).key_values;
        &&& shareable(states, digest, exclude, id)
        &&& delta[i].from_version_excluded == known_version(digest, id)
        &&& delta[i].key_values.len() <= kvs.len()
        &&& delta[i].key_values == kvs.take(delta[i].key_values.len() as int)
        &&& increasing(delta[i])
        &&& id == order[i]
    } by {
        assert(order.contains(order[i]));
        assert(shareable(states, digest, exclude, order[i]));
        let full = whole_member_delta(states[order[i]], known_version(digest, order[i]));
        assert(whole[i] == full);
        law_whole_delta_increases(states[order[i]], known_version(digest, order[i]));
        assert(delta[i].key_values == full.key_values.take(delta[i].key_values.len() as int));
        assert forall|j: int| 0 <= j < delta[i].key_values.len() implies
            #[trigger] delta[i].key_values[j] == full.key_values[j] by {}
    }
    assert forall|i: int, j: int| 0 <= i < j < delta.len() implies (#[trigger] delta[i]).member_id
        != (#[trigger] delta[j]).member_id by {
        assert(order[i] != order[j]);
    }
}

/// The stalest members are shared first: those of which the digest's sender holds nothing,
/// the ones with the lowest versions first, and then the others, the ones of which it lacks
/// the most key-values first.
pub proof fn law_stalest_members_go_first(
    states: MemberStates,
    digest: Map<MemberIdView, MemberDigest>,
    exclude: Set<MemberIdView>,
    order: Seq<MemberIdView>,
    i: int,
    j: int,
)
    requires
        gossip_order(states, digest, exclude, order),
        0 <= i < j < order.len(),
    ensures
        known_version(digest, order[j]) == 0 ==> {
            &&& known_version(digest, order[i]) == 0
            &&& states[order[i]].max_version <= states[order[j]].max_version
        },
        known_version(digest, order[i]) != 0 ==> staleness(
            states[order[i]],
            known_version(digest, order[i]),
        ).num_stale_key_values >= staleness(
            states[order[j]],
            known_version(digest, order[j]),
        ).num_stale_key_values,
{
    assert(!Staleness::before(
        staleness(states[order[i]], known_version(digest, order[i])).key(),
        staleness(states[order[j]], known_version(digest, order[j])).key(),
    ));
}

/// A delta teaches no new member.
pub proof fn law_unknown_members_are_ignored(states: MemberStates, delta: Seq<MemberDeltaView>)
    ensures
        apply_deltas(states, delta).dom() == states.dom(),
    decreases delta.len(),
{
    if delta.len() > 0 {
        law_unknown_members_are_ignored(states, delta.drop_last());
        let before = apply_deltas(states, delta.drop_last());
        assert(apply_member_delta(before, delta.last()).dom() =~= before.dom());
    }
}

/// A delta that names no member twice changes each known member by what it carries of that
/// member, and no other.
pub proof fn law_members_change_on_their_own(states: MemberStates, delta: Seq<MemberDeltaView>)
    requires
        distinct_members(delta),
    ensures
        forall|i: int|
            0 <= i < delta.len() && states.contains_key((#[trigger] delta[i]).member_id)
                ==> apply_deltas(states, delta)[delta[i].member_id]
                == states[delta[i].member_id].apply_delta(delta[i]),
        forall|id: MemberIdView| #[trigger]
            states.contains_key(id) && (forall|i: int|
                0 <= i < delta.len() ==> (#[trigger] delta[i]).member_id != id) ==> apply_deltas(
                states,
                delta,
            )[id] == states[id],
    decreases delta.len(),
{
    if delta.len() > 0 {
        let front = delta.drop_last();
        let last = delta.last();
        let before = apply_deltas(states, front);
        assert forall|i: int, j: int| 0 <= i < j < front.len() implies (
        #[trigger] front[i]).member_id != (#[trigger] front[j]).member_id by {
            assert(delta[i].member_id != delta[j].member_id);
        }
        law_members_change_on_their_own(states, front);
        law_unknown_members_are_ignored(states, front);
        assert(delta[delta.len() - 1] == last);
        assert forall|i: int| 0 <= i < front.len() implies (#[trigger] front[i]).member_id
            != last.member_id by {
            assert(delta[i].member_id != delta[delta.len() - 1].member_id);
        }
        assert forall|i: int|
            0 <= i < delta.len() && states.contains_key(
                (#[trigger] delta[i]).member_id,
            ) implies apply_deltas(states, delta)[delta[i].member_id]
            == states[delta[i].member_id].apply_delta(delta[i]) by {
            if i < front.len() {
                assert(front[i] == delta[i]);
            } else {
                assert(before[last.member_id] == states[last.member_id]);
                assert(before.contains_key(last.member_id));
            }
        }
        assert forall|id: MemberIdView| #[trigger]
            states.contains_key(id) && (forall|i: int|
                0 <= i < delta.len() ==> (#[trigger] delta[i]).member_id != id) implies apply_deltas(
            states,
            delta,
        )[id] == states[id] by {
            assert forall|i: int| 0 <= i < front.len() implies (#[trigger] front[i]).member_id
                != id by {
                assert(delta[i].member_id != id);
            }
            assert(delta[delta.len() - 1].member_id != id);
        }
    }
}

/// A delta that names no member twice and arrives twice does what it does once.
pub proof fn law_duplicate_deltas_change_nothing(states: MemberStates, delta: Seq<MemberDeltaView>)
    requires
        distinct_members(delta),
    ensures
        apply_deltas(apply_deltas(states, delta), delta) == apply_deltas(states, delta),
{
    let once = apply_deltas(states, delta);
    let twice = apply_deltas(once, delta);
    law_members_change_on_their_own(states, delta);
    law_members_change_on_their_own(once, delta);
    law_unknown_members_are_ignored(states, delta);
    law_unknown_members_are_ignored(once, delta);
    assert forall|id: MemberIdView| #[trigger] once.contains_key(id) implies twice[id]
        == once[id] by {
        assert(states.contains_key(id));
        if exists|i: int| 0 <= i < delta.len() && (#[trigger] delta[i]).member_id == id {
            let i = choose|i: int| 0 <= i < delta.len() && (#[trigger] delta[i]).member_id == id;
            law_duplicate_delta_changes_nothing(states[id], delta[i]);
        }
    }
    assert(twice =~= once);
}

/// The receiver holds at least what the digest that it sent says.
pub open spec fn answers(
    receiver: MemberStates,
    digest: Map<MemberIdView, MemberDigest>,
) -> bool {
    forall|id: MemberIdView| #[trigger]
        receiver.contains_key(id) ==> known_version(digest, id) <= receiver[id].max_version
}

/// However much of it is cut off, a delta that answers a digest extends what the receiver
/// holds: a prefix of what the sender holds stays one, and does not shrink.
pub proof fn law_partial_delta_extends_prefixes(
    receiver: MemberStates,
    sender: MemberStates,
    digest: Map<MemberIdView, MemberDigest>,
    exclude: Set<MemberIdView>,
    mtu: usize,
    delta: Seq<MemberDeltaView>,
    id: MemberIdView,
)
    requires
        valid_states(receiver),
        valid_states(sender),
        answers(receiver, digest),
        partial_delta_for(sender, digest, exclude, mtu, delta),
        receiver.contains_key(id),
        sender.contains_key(id),
        prefix_of(receiver[id], sender[id]),
    ensures
        apply_deltas(receiver, delta).contains_key(id),
        prefix_of(apply_deltas(receiver, delta)[id], sender[id]),
        apply_deltas(receiver, delta)[id].max_version >= receiver[id].max_version,
{
    law_partial_delta_continues_the_digest(sender, digest, exclude, mtu, delta);
    law_members_change_on_their_own(receiver, delta);
    law_unknown_members_are_ignored(receiver, delta);
    if exists|i: int| 0 <= i < delta.len() && (#[trigger] delta[i]).member_id == id {
        let i = choose|i: int| 0 <= i < delta.len() && (#[trigger] delta[i]).member_id == id;
        law_delta_extends_prefix(receiver[id], sender[id], delta[i]);
    }
}

/// Everything that the sender of a digest lacks fits the mtu.
pub open spec fn everything_fits(
    sender: MemberStates,
    digest: Map<MemberIdView, MemberDigest>,
    exclude: Set<MemberIdView>,
    mtu: usize,
) -> bool {
    forall|order: Seq<MemberIdView>| #[trigger]
        gossip_order(sender, digest, exclude, order) ==> saturated(
            encode_delta(whole_delta(sender, digest, order)).len(),
        ) <= mtu
}

/// Where everything fits, the receiver of a delta that answers its digest catches up with the
/// sender on every member that is not excluded and of which it holds a prefix.
pub proof fn law_receiver_catches_up(
    receiver: MemberStates,
    sender: MemberStates,
    digest: Map<MemberIdView, MemberDigest>,
    exclude: Set<MemberIdView>,
    mtu: usize,
    delta: Seq<MemberDeltaView>,
    id: MemberIdView,
)
    requires
        valid_states(receiver),
        valid_states(sender),
        answers(receiver, digest),
        partial_delta_for(sender, digest, exclude, mtu, delta),
        everything_fits(sender, digest, exclude, mtu),
        receiver.contains_key(id),
        sender.contains_key(id),
        !exclude.contains(id),
        prefix_of(receiver[id], sender[id]),
    ensures
        apply_deltas(receiver, delta).contains_key(id),
        apply_deltas(receiver, delta)[id] == (MemberStateView {
            heartbeat: receiver[id].heartbeat,
            ..sender[id]
        }),
{
    let order = choose|order: Seq<MemberIdView>| #[trigger]
        gossip_order(sender, digest, exclude, order) && largest_cut(
            delta,
            whole_delta(sender, digest, order),
            mtu,
        );
    law_nothing_is_cut_off(delta, whole_delta(sender, digest, order), mtu);
    law_partial_delta_continues_the_digest(sender, digest, exclude, mtu, delta);
    law_members_change_on_their_own(receiver, delta);
    law_unknown_members_are_ignored(receiver, delta);
    let from = known_version(digest, id);
    if shareable(sender, digest, exclude, id) {
        assert(order.contains(id));
        let i = choose|i: int| 0 <= i < order.len() && order[i] == id;
        assert(delta[i] == whole_member_delta(sender[id], from));
        assert(delta[i].member_id == id);
        law_whole_delta_catches_up(receiver[id], sender[id], from);
    } else {
        assert(receiver[id].max_version == sender[id].max_version);
        assert(receiver[id].key_values =~= sender[id].key_values);
        assert forall|i: int| 0 <= i < delta.len() implies (#[trigger] delta[i]).member_id
            != id by {
            assert(shareable(sender, digest, exclude, delta[i].member_id));
        }
    }
}

/// A delta does not touch a member of which the receiver holds at least what the sender
/// holds.
pub proof fn law_delta_adds_nothing_known(
    receiver: MemberStates,
    sender: MemberStates,
    digest: Map<MemberIdView, MemberDigest>,
    exclude: Set<MemberIdView>,
    mtu: usize,
    delta: Seq<MemberDeltaView>,
    id: MemberIdView,
)
    requires
        valid_states(sender),
        partial_delta_for(sender, digest, exclude, mtu, delta),
        receiver.contains_key(id),
        sender.contains_key(id) ==> sender[id].max_version <= receiver[id].max_version,
    ensures
        apply_deltas(receiver, delta)[id] == receiver[id],
{
    law_partial_delta_continues_the_digest(sender, digest, exclude, mtu, delta);
    law_members_change_on_their_own(receiver, delta);
    if exists|i: int| 0 <= i < delta.len() && (#[trigger] delta[i]).member_id == id {
        let i = choose|i: int| 0 <= i < delta.len() && (#[trigger] delta[i]).member_id == id;
        let from = known_version(digest, id);
        let whole = whole_member_delta(sender[id], from).key_values;
        lemma_listed(sender[id].key_values, from as nat, sender[id].max_version as nat);
        assert forall|j: int| 0 <= j < delta[i].key_values.len() implies (
        #[trigger] delta[i].key_values[j]).version <= receiver[id].max_version by {
            assert(delta[i].key_values[j] == whole[j]);
        }
        law_held_versions_change_nothing(receiver[id], delta[i]);
    }
}

/// Where something is to be shared, and the first key-value of each member to share fits the
/// mtu with its member's header, a delta that answers a digest brings something new: its
/// first member's version goes up.
pub proof fn law_delta_makes_progress(
    sender: MemberStates,
    digest: Map<MemberIdView, MemberDigest>,
    exclude: Set<MemberIdView>,
    mtu: usize,
    delta: Seq<MemberDeltaView>,
    some: MemberIdView,
)
    requires
        valid_states(sender),
        partial_delta_for(sender, digest, exclude, mtu, delta),
        shareable(sender, digest, exclude, some),
        forall|id: MemberIdView| #[trigger]
            shareable(sender, digest, exclude, id) ==> {
                let whole = whole_member_delta(sender[id], known_version(digest, id));
                saturated(
                    encode_op(member_ops(whole)[0]).len() + encode_op(
                        DeltaOp::KeyValue(whole.key_values[0]),
                    ).len(),
                ) <= mtu
            },
    ensures
        delta.len() > 0,
        delta[0].key_values.len() > 0,
        delta[0].max_version() > known_version(digest, delta[0].member_id),
{
    let order = choose|order: Seq<MemberIdView>| #[trigger]
        gossip_order(sender, digest, exclude, order) && largest_cut(
            delta,
            whole_delta(sender, digest, order),
            mtu,
        );
    let whole = whole_delta(sender, digest, order);
    assert(order.contains(some));
    let id = order[0];
    assert(order.contains(id));
    assert(shareable(sender, digest, exclude, id));
    let from = known_version(digest, id);
    lemma_listed(sender[id].key_values, from as nat, sender[id].max_version as nat);
    assert(has_version(sender[id].key_values, sender[id].max_version));
    assert(whole[0] == whole_member_delta(sender[id], from));
    assert(whole[0].key_values.len() > 0);
    let header = member_ops(whole[0])[0];
    if delta.len() == 0 {
        assert(delta =~= Seq::empty());
        assert(encode_delta(delta).len() == 0);
        assert(next_op(delta, whole) == Some(header));
    }
    assert(delta[0].key_values.len() > 0) by {
        if delta[0].key_values.len() == 0 {
            if delta.len() > 1 {
                assert(delta[0].key_values.len() == whole[0].key_values.len());
            }
            let none = Seq::<MemberDeltaView>::empty();
            lemma_delta_ops_with_op(none, header);
            assert(with_op(none, header)[0].key_values =~= delta[0].key_values);
            assert(delta =~= with_op(none, header));
            assert(encode_delta(none).len() == 0);
        }
    }
    law_partial_delta_continues_the_digest(sender, digest, exclude, mtu, delta);
    assert(increasing(delta[0]));
}

/// Of each member known, a prefix is held of what that member itself holds. `sources` is what
/// the members hold of themselves, which never changes.
pub open spec fn all_prefixes(states: MemberStates, sources: MemberStates) -> bool {
    forall|id: MemberIdView| #[trigger]
        states.contains_key(id) ==> sources.contains_key(id) && prefix_of(states[id], sources[id])
}

/// Whatever a delta carries of a member is a piece of what that member holds of itself.
pub open spec fn genuine(delta: Seq<MemberDeltaView>, sources: MemberStates) -> bool {
    forall|i: int|
        0 <= i < delta.len() ==> {
            &&& sources.contains_key((#[trigger] delta[i]).member_id)
            &&& piece_of(delta[i], sources[delta[i].member_id])
        }
}

/// A member that holds prefixes sends genuine deltas.
pub proof fn law_sent_deltas_are_genuine(
    states: MemberStates,
    sources: MemberStates,
    digest: Map<MemberIdView, MemberDigest>,
    exclude: Set<MemberIdView>,
    mtu: usize,
    delta: Seq<MemberDeltaView>,
)
    requires
        valid_states(states),
        valid_states(sources),
        all_prefixes(states, sources),
        partial_delta_for(states, digest, exclude, mtu, delta),
    ensures
        genuine(delta, sources),
{
    law_partial_delta_continues_the_digest(states, digest, exclude, mtu, delta);
    assert forall|i: int| 0 <= i < delta.len() implies {
        &&& sources.contains_key((#[trigger] delta[i]).member_id)
        &&& piece_of(delta[i], sources[delta[i].member_id])
    } by {
        let id = delta[i].member_id;
        assert(states.contains_key(id));
        law_piece_of_a_prefix(delta[i], states[id], sources[id]);
    }
}

/// Genuine deltas, whether late, repeated, or out of order, leave only prefixes behind.
pub proof fn law_genuine_deltas_keep_prefixes(
    states: MemberStates,
    sources: MemberStates,
    delta: Seq<MemberDeltaView>,
)
    requires
        valid_states(states),
        valid_states(sources),
        all_prefixes(states, sources),
        genuine(delta, sources),
    ensures
        valid_states(apply_deltas(states, delta)),
        all_prefixes(apply_deltas(states, delta), sources),
    decreases delta.len(),
{
    if delta.len() > 0 {
        let front = delta.drop_last();
        let last = delta.last();
        assert forall|i: int| 0 <= i < front.len() implies {
            &&& sources.contains_key((#[trigger] front[i]).member_id)
            &&& piece_of(front[i], sources[front[i].member_id])
        } by {
            assert(front[i] == delta[i]);
        }
        law_genuine_deltas_keep_prefixes(states, sources, front);
        let before = apply_deltas(states, front);
        let id = last.member_id;
        assert(delta[delta.len() - 1] == last);
        if before.contains_key(id) {
            law_delta_never_goes_back(before[id], last);
            if last.from_version_excluded <= before[id].max_version {
                law_delta_extends_prefix(before[id], sources[id], last);
            }
        }
    }
}

/// What a delta that answers a digest carries of a member is held of that member, above the
/// version that the digest tells, in the order of the versions and leaving none out before the
/// last one carried; and of all members but the last one it leaves none out at all.
pub proof fn law_delta_carries_what_is_held(
    states: MemberStates,
    digest: Map<MemberIdView, MemberDigest>,
    exclude: Set<MemberIdView>,
    mtu: usize,
    delta: Seq<MemberDeltaView>,
    i: int,
)
    requires
        valid_states(states),
        partial_delta_for(states, digest, exclude, mtu, delta),
        0 <= i < delta.len(),
    ensures
        ({
            let id = delta[i].member_id;
            let kvs = delta[i].key_values;
            let held = states[id].key_values;
            let from: Version = if digest.contains_key(id) {
                digest[id].max_version
            } else {
                0
            };
            &&& states.contains_key(id)
            &&& !exclude.contains(id)
            &&& states[id].max_version > from
            &&& delta[i].from_version_excluded == from
            &&& forall|j: int|
                0 <= j < kvs.len() ==> {
                    &&& held.contains_key((#[trigger] kvs[j]).key)
                    &&& held[kvs[j].key].value == kvs[j].value
                    &&& held[kvs[j].key].version == kvs[j].version
                    &&& kvs[j].version > from
                }
            &&& forall|j: int, l: int|
                0 <= j < l < kvs.len() ==> (#[trigger] kvs[j]).version < (#[trigger] kvs[l]).version
            &&& forall|k: Seq<char>| #[trigger]
                held.contains_key(k) && held[k].version > from && (i < delta.len() - 1 || (kvs.len()
                    > 0 && held[k].version <= kvs.last().version)) ==> exists|j: int|
                    0 <= j < kvs.len() && (#[trigger] kvs[j]).key == k
        }),
{
    law_partial_delta_continues_the_digest(states, digest, exclude, mtu, delta);
    let id = delta[i].member_id;
    let kvs = delta[i].key_values;
    let held = states[id].key_values;
    let from = known_version(digest, id);
    let all = whole_member_delta(states[id], from).key_values;
    lemma_listed(held, from as nat, states[id].max_version as nat);
    assert forall|j: int| 0 <= j < kvs.len() implies #[trigger] kvs[j] == all[j] by {}
    if i < delta.len() - 1 {
        let order = choose|order: Seq<MemberIdView>| #[trigger]
            gossip_order(states, digest, exclude, order) && largest_cut(
                delta,
                whole_delta(states, digest, order),
                mtu,
            );
        assert(order.contains(order[i]));
        assert(shareable(states, digest, exclude, order[i]));
        assert(whole_delta(states, digest, order)[i] == whole_member_delta(
            states[order[i]],
            known_version(digest, order[i]),
        ));
        assert(kvs.len() == all.len());
    }
    assert forall|k: Seq<char>| #[trigger]
        held.contains_key(k) && held[k].version > from && (i < delta.len() - 1 || (kvs.len() > 0
            && held[k].version <= kvs.last().version)) implies exists|j: int|
        0 <= j < kvs.len() && (#[trigger] kvs[j]).key == k by {
        assert(has_version(held, held[k].version));
        let j = choose|j: int| 0 <= j < all.len() && (#[trigger] all[j]).version == held[k].version;
        assert(all[j].key == k) by {
            assert(held[all[j].key].version == held[k].version);
        }
        if j >= kvs.len() {
            assert(all[kvs.len() - 1].version < all[j].version);
        }
        assert(kvs[j].key == k);
    }
}

/// A delta that answers a digest takes no more than the mtu, and leaves a key-value out that the
/// digest's sender lacks only where the op that would come next no longer fits: the key-value
/// that follows the last one carried, or the head of a member that is not named yet.
pub proof fn law_delta_stops_only_when_full(
    states: MemberStates,
    digest: Map<MemberIdView, MemberDigest>,
    exclude: Set<MemberIdView>,
    mtu: usize,
    delta: Seq<MemberDeltaView>,
    id: MemberIdView,
    k: Seq<char>,
)
    requires
        valid_states(states),
        partial_delta_for(states, digest, exclude, mtu, delta),
        states.contains_key(id),
        !exclude.contains(id),
        states[id].key_values.contains_key(k),
        digest.contains_key(id) ==> states[id].key_values[k].version > digest[id].max_version,
        forall|i: int, j: int|
            0 <= i < delta.len() && delta[i].member_id == id && 0 <= j < delta[i].key_values.len()
                ==> (#[trigger] delta[i].key_values[j]).key != k,
    ensures
        mtu < usize::MAX,
        encode_delta(delta).len() <= mtu,
        exists|op: DeltaOp| #[trigger]
            encode_op(op).len() + encode_delta(delta).len() > mtu && match op {
                DeltaOp::Member { member_id, from_version_excluded } => {
                    let from: Version = if digest.contains_key(member_id) {
                digest[member_id].max_version
            } else {
                0
            };
                    &&& states.contains_key(member_id)
                    &&& !exclude.contains(member_id)
                    &&& states[member_id].max_version > from
                    &&& from_version_excluded == from
                    &&& forall|i: int|
                        0 <= i < delta.len() ==> (#[trigger] delta[i]).member_id != member_id
                },
                DeltaOp::KeyValue(kv) => {
                    let last = delta.last();
                    let held = states[last.member_id].key_values;
                    &&& delta.len() > 0
                    &&& held.contains_key(kv.key)
                    &&& held[kv.key].value == kv.value
                    &&& held[kv.key].version == kv.version
                    &&& kv.version > last.from_version_excluded
                    &&& forall|j: int|
                        0 <= j < last.key_values.len() ==> (#[trigger] last.key_values[j]).version
                            < kv.version
                    &&& forall|l: Seq<char>| #[trigger]
                        held.contains_key(l) && last.from_version_excluded < held[l].version
                            < kv.version ==> exists|j: int|
                            0 <= j < last.key_values.len() && (
                            #[trigger] last.key_values[j]).key == l
                },
            },
{
    law_partial_delta_continues_the_digest(states, digest, exclude, mtu, delta);
    let order = choose|order: Seq<MemberIdView>| #[trigger]
        gossip_order(states, digest, exclude, order) && largest_cut(
            delta,
            whole_delta(states, digest, order),
            mtu,
        );
    let whole = whole_delta(states, digest, order);
    assert forall|i: int| 0 <= i < order.len() implies {
        &&& #[trigger] whole[i] == whole_member_delta(
            states[order[i]],
            known_version(digest, order[i]),
        )
        &&& shareable(states, digest, exclude, order[i])
        &&& whole[i].member_id == order[i]
    } by {
        assert(order.contains(order[i]));
    }
    assert(1 <= states[id].key_values[k].version <= states[id].max_version);
    assert(shareable(states, digest, exclude, id));
    assert(order.contains(id));
    let p = choose|p: int| 0 <= p < order.len() && order[p] == id;
    lemma_listed(
        states[id].key_values,
        known_version(digest, id) as nat,
        states[id].max_version as nat,
    );
    assert(has_version(states[id].key_values, states[id].key_values[k].version));
    let all = whole[p].key_values;
    let q = choose|q: int|
        0 <= q < all.len() && (#[trigger] all[q]).version == states[id].key_values[k].version;
    assert(all[q].key == k) by {
        assert(states[id].key_values[all[q].key].version == states[id].key_values[k].version);
    }
    if next_op(delta, whole) is None {
        assert(delta[p].member_id == id);
        assert(delta[p].key_values.len() == all.len());
        assert(delta[p].key_values[q].key == k);
    }
    let op = next_op(delta, whole)->Some_0;
    assert(encode_op(op).len() + encode_delta(delta).len() > mtu);
    match op {
        DeltaOp::Member { member_id, from_version_excluded } => {
            let n = delta.len() as int;
            assert(whole[n].member_id == order[n]);
            assert forall|i: int| 0 <= i < delta.len() implies (#[trigger] delta[i]).member_id
                != member_id by {
                assert(whole[i].member_id == order[i]);
                assert(order[i] != order[n]);
            }
        },
        DeltaOp::KeyValue(kv) => {
            let n = delta.len() - 1;
            let last = delta.last();
            let count = last.key_values.len() as int;
            let x = last.member_id;
            let held = states[x].key_values;
            let rest = whole[n].key_values;
            assert(last == delta[n]);
            assert(order[n] == x);
            lemma_listed(held, known_version(digest, x) as nat, states[x].max_version as nat);
            assert(kv == rest[count]);
            assert forall|j: int| 0 <= j < count implies (#[trigger] last.key_values[j]).version
                < kv.version by {
                assert(last.key_values[j] == rest[j]);
            }
            assert forall|l: Seq<char>| #[trigger]
                held.contains_key(l) && last.from_version_excluded < held[l].version
                    < kv.version implies exists|j: int|
                0 <= j < last.key_values.len() && (#[trigger] last.key_values[j]).key == l by {
                assert(has_version(held, held[l].version));
                let j = choose|j: int|
                    0 <= j < rest.len() && (#[trigger] rest[j]).version == held[l].version;
                assert(rest[j].key == l) by {
                    assert(held[rest[j].key].version == held[l].version);
                }
                if j >= count {
                    if j > count {
                        assert(rest[count].version < rest[j].version);
                    }
                }
                assert(last.key_values[j] == rest[j]);
            }
        },
    }
}

/// A member that a delta names is at least as stale to the digest's sender as one that it names
/// later or not at all: a member of which the sender holds nothing goes before one of which it
/// does, and of two such members the one with the lower version; of the others the one of which
/// the sender lacks more key-values.
pub proof fn law_staler_members_are_ahead(
    states: MemberStates,
    digest: Map<MemberIdView, MemberDigest>,
    exclude: Set<MemberIdView>,
    mtu: usize,
    delta: Seq<MemberDeltaView>,
    i: int,
    other: MemberIdView,
)
    requires
        valid_states(states),
        partial_delta_for(states, digest, exclude, mtu, delta),
        0 <= i < delta.len(),
        states.contains_key(other),
        !exclude.contains(other),
        states[other].max_version > 0,
        digest.contains_key(other) ==> states[other].max_version > digest[other].max_version,
        forall|j: int| 0 <= j <= i ==> (#[trigger] delta[j]).member_id != other,
        states[other].key_values.len() <= usize::MAX,
        states[delta[i].member_id].key_values.len() <= usize::MAX,
    ensures
        ({
            let ahead = delta[i].member_id;
            let from: Version = if digest.contains_key(ahead) {
                digest[ahead].max_version
            } else {
                0
            };
            let from_other: Version = if digest.contains_key(other) {
                digest[other].max_version
            } else {
                0
            };
            let stale = states[ahead].key_values.dom().filter(
                |k: Seq<char>| states[ahead].key_values[k].version > from,
            );
            let stale_other = states[other].key_values.dom().filter(
                |k: Seq<char>| states[other].key_values[k].version > from_other,
            );
            &&& from_other == 0 ==> {
                &&& from == 0
                &&& states[ahead].max_version <= states[other].max_version
            }
            &&& from != 0 ==> stale.len() >= stale_other.len()
        }),
{
    let order = choose|order: Seq<MemberIdView>| #[trigger]
        gossip_order(states, digest, exclude, order) && largest_cut(
            delta,
            whole_delta(states, digest, order),
            mtu,
        );
    let whole = whole_delta(states, digest, order);
    assert forall|j: int| 0 <= j < order.len() implies (#[trigger] whole[j]).member_id
        == order[j] by {
        assert(order.contains(order[j]));
        assert(shareable(states, digest, exclude, order[j]));
    }
    assert(shareable(states, digest, exclude, other));
    assert(order.contains(other));
    let p = choose|p: int| 0 <= p < order.len() && order[p] == other;
    if p <= i {
        assert(delta[p].member_id == whole[p].member_id);
    }
    let ahead = delta[i].member_id;
    assert(ahead == order[i]);
    assert(shareable(states, digest, exclude, ahead)) by {
        assert(order.contains(order[i]));
    }
    law_stalest_members_go_first(states, digest, exclude, order, i, p);
    law_staleness_counts_what_is_lacking(states[ahead], known_version(digest, ahead));
    law_staleness_counts_what_is_lacking(states[other], known_version(digest, other));
}

/// Applying a delta is applying its front and then the rest.
pub proof fn law_deltas_are_applied_in_turn(
    states: MemberStates,
    front: Seq<MemberDeltaView>,
    rest: Seq<MemberDeltaView>,
)
    ensures
        apply_deltas(states, front + rest) == apply_deltas(apply_deltas(states, front), rest),
    decreases rest.len(),
{
    if rest.len() == 0 {
        assert(front + rest =~= front);
    } else {
        assert((front + rest).drop_last() =~= front + rest.drop_last());
        assert((front + rest).last() == rest.last());
        law_deltas_are_applied_in_turn(states, front, rest.drop_last());
    }
}


/// The digests tell of each known member that is not excluded its heartbeat and its version, and
/// of no other.
pub proof fn law_digests_tell_of_those_not_excluded(
    states: MemberStates,
    exclude: Set<MemberIdView>,
    id: MemberIdView,
)
    ensures
        digests(states, exclude).contains_key(id) <==> states.contains_key(id)
            && !exclude.contains(id),
        digests(states, exclude).contains_key(id) ==> {
            &&& digests(states, exclude)[id].heartbeat.0 == states[id].heartbeat.0
            &&& digests(states, exclude)[id].max_version == states[id].max_version
        },
{
}

} // verus!
