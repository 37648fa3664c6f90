//! What a whole gossip handshake achieves.
use crate::cluster::{
    apply_deltas, digests, known_version, partial_delta_for, valid_states, MemberStates,
};
use crate::delta::{increasing, sendable_delta, sendable_key_value, MemberDeltaView};
use crate::digest::{sendable_digest, Digest, MemberDigest};
use crate::failure_detector::Nanos;
use crate::message::{
    decode_message, law_message_round_trip, lemma_header_len, Message, MessageKind, MessageView,
};
use crate::order::OrderedKey;
use crate::ordered_map::lemma_entries_map;
use crate::prefix::{law_delta_never_goes_back, lemma_listed, prefix_of, up_to};
use crate::reconcile::{
    all_prefixes, answers, everything_fits, genuine, law_delta_adds_nothing_known,
    law_genuine_deltas_keep_prefixes, law_partial_delta_continues_the_digest,
    law_receiver_catches_up, law_sent_deltas_are_genuine, law_unknown_members_are_ignored,
};
use crate::serialize::{sendable_member_id, sendable_str, DeserializeError, Serializable};
use crate::staleness::whole_member_delta;
use crate::state::MemberStateView;
use crate::tchatche::{room, TchatcheView, MAX_UDP_DATAGRAM_PAYLOAD_SIZE};
use crate::types::MemberIdView;
use vstd::prelude::*;

verus! {

/// A handshake: `initiator` and `peer` are what the two know before it; the messages are what
/// they send one another.
pub struct Handshake {
    pub initiator: TchatcheView,
    pub peer: TchatcheView,
    pub syn: Message,
    pub syn_ack: Message,
    pub ack: Message,
}

impl Handshake {
    /// What the peer knows after the first message.
    pub open spec fn peer_after_syn(self) -> TchatcheView {
        self.peer.receive(self.syn)
    }

    /// What the initiator knows after the second message.
    pub open spec fn initiator_after(self) -> TchatcheView {
        self.initiator.receive(self.syn_ack)
    }

    /// What the peer knows after the third message.
    pub open spec fn peer_after(self) -> TchatcheView {
        self.peer_after_syn().receive(self.ack)
    }

    /// Two members of one cluster exchange the three messages of a handshake.
    pub open spec fn takes_place(self) -> bool {
        &&& self.initiator.valid()
        &&& self.peer.valid()
        &&& self.initiator.cluster_id == self.peer.cluster_id
        &&& self.syn.wf()
        &&& self.syn@ == self.initiator.syn()
        &&& self.peer_after_syn().replies(self.syn, Some(self.syn_ack))
        &&& self.initiator_after().replies(self.syn_ack, Some(self.ack))
    }

    /// The digest that the initiator sends.
    pub open spec fn initiator_digest(self) -> Map<MemberIdView, MemberDigest> {
        digests(self.initiator.states, self.initiator.dead())
    }

    /// The digest that the peer sends.
    pub open spec fn peer_digest(self) -> Map<MemberIdView, MemberDigest> {
        digests(self.peer_after_syn().states, self.peer.dead())
    }

    /// What either lacks of the other's members fits the datagrams.
    pub open spec fn fits(self) -> bool {
        &&& self.syn_ack.kind matches MessageKind::SynAck { digest, .. } && everything_fits(
            self.peer_after_syn().states,
            self.initiator_digest(),
            self.peer.dead(),
            room(self.peer.header_len() + digest.encoding().len()),
        )
        &&& everything_fits(
            self.initiator_after().states,
            self.peer_digest(),
            self.initiator.dead(),
            room(self.initiator.header_len()),
        )
    }
}

/// Two states of one member that hold the same key-values.
pub open spec fn same_key_values(a: MemberStateView, b: MemberStateView) -> bool {
    &&& a.member_id == b.member_id
    &&& a.key_values == b.key_values
    &&& a.max_version == b.max_version
}

/// Two maps of states that hold the same key-values wherever both know a member.
spec fn same_contents(a: MemberStates, b: MemberStates) -> bool {
    forall|id: MemberIdView|
        #![trigger a.contains_key(id)]
        #![trigger b.contains_key(id)]
        a.contains_key(id) && b.contains_key(id) ==> same_key_values(a[id], b[id])
}

proof fn lemma_digests_finite(states: MemberStates, exclude: Set<MemberIdView>)
    requires
        valid_states(states),
    ensures
        digests(states, exclude).dom().finite(),
{
    assert(digests(states, exclude).dom().subset_of(states.dom()));
    vstd::set_lib::lemma_len_subset(digests(states, exclude).dom(), states.dom());
}

proof fn lemma_bump(member: TchatcheView)
    requires
        member.valid(),
    ensures
        member.bump().valid(),
        member.bump().states.dom() == member.states.dom(),
        same_contents(member.states, member.bump().states),
{
    let after = member.bump();
    assert(after.states.dom() =~= member.states.dom());
    assert forall|id: MemberIdView| #[trigger] after.states.contains_key(
        id,
    ) implies after.states[id].valid() && after.states[id].member_id == id && same_key_values(
        member.states[id],
        after.states[id],
    ) by {
        assert(member.states.contains_key(id));
    }
}

proof fn lemma_hear_digest(member: TchatcheView, digest: Digest)
    requires
        member.valid(),
        digest@.dom().finite(),
    ensures
        member.hear_digest(digest).valid(),
        same_contents(member.states, member.hear_digest(digest).states),
        forall|id: MemberIdView| #[trigger]
            member.hear_digest(digest).states.contains_key(id) <==> member.states.contains_key(id)
                || (digest@.contains_key(id) && id != member.self_id),
        forall|id: MemberIdView|
            !member.states.contains_key(id) && #[trigger] member.hear_digest(
                digest,
            ).states.contains_key(id) ==> same_key_values(
                member.hear_digest(digest).states[id],
                MemberStateView::unheard(id),
            ),
{
    let after = member.hear_digest(digest);
    assert(after.states.dom().subset_of(member.states.dom().union(digest@.dom())));
    vstd::set_lib::lemma_len_subset(
        after.states.dom(),
        member.states.dom().union(digest@.dom()),
    );
    assert forall|id: MemberIdView| #[trigger] after.states.contains_key(
        id,
    ) implies after.states[id].valid() && after.states[id].member_id == id by {}
    assert(after.states.contains_key(member.self_id));
}

proof fn lemma_apply(member: TchatcheView, delta: Seq<MemberDeltaView>)
    requires
        member.valid(),
    ensures
        member.apply(delta).valid(),
        member.apply(delta).states.dom() == member.states.dom(),
    decreases delta.len(),
{
    law_unknown_members_are_ignored(member.states, delta);
    if delta.len() > 0 {
        lemma_apply(member, delta.drop_last());
        let before = apply_deltas(member.states, delta.drop_last());
        let last = delta.last();
        if before.contains_key(last.member_id) {
            law_delta_never_goes_back(before[last.member_id], last);
        }
        assert(valid_states(apply_deltas(member.states, delta)));
    }
}

/// What is known at the turns of a handshake.
proof fn lemma_turns(h: Handshake) -> (turns: (TchatcheView, TchatcheView))
    requires
        h.takes_place(),
    ensures
        ({
            let (heard_back, bumped) = turns;
            &&& h.peer_after_syn().valid()
            &&& h.initiator_after().valid()
            &&& h.peer_after().valid()
            &&& same_contents(h.peer.states, h.peer_after_syn().states)
            &&& forall|id: MemberIdView| #[trigger]
                h.peer_after_syn().states.contains_key(id) <==> h.peer.states.contains_key(id)
                    || h.initiator_digest().contains_key(id)
            &&& forall|id: MemberIdView|
                !h.peer.states.contains_key(id)
                    && #[trigger] h.peer_after_syn().states.contains_key(id) ==> same_key_values(
                    h.peer_after_syn().states[id],
                    MemberStateView::unheard(id),
                )
            &&& h.peer_after_syn().dead() == h.peer.dead()
            &&& heard_back.valid()
            &&& same_contents(h.initiator.states, heard_back.states)
            &&& forall|id: MemberIdView| #[trigger]
                heard_back.states.contains_key(id) <==> h.initiator.states.contains_key(id)
                    || h.peer_digest().contains_key(id)
            &&& forall|id: MemberIdView|
                !h.initiator.states.contains_key(id)
                    && #[trigger] heard_back.states.contains_key(id) ==> same_key_values(
                    heard_back.states[id],
                    MemberStateView::unheard(id),
                )
            &&& heard_back.dead() == h.initiator.dead()
            &&& h.syn_ack.kind matches MessageKind::SynAck { digest, delta } && {
                &&& digest@ == h.peer_digest()
                &&& h.initiator_after() == heard_back.apply(delta@)
            }
            &&& bumped.valid()
            &&& bumped.states.dom() == h.peer_after_syn().states.dom()
            &&& same_contents(h.peer_after_syn().states, bumped.states)
            &&& h.ack.kind matches MessageKind::Ack { delta } && h.peer_after() == bumped.apply(
                delta@,
            )
        }),
{
    lemma_digests_finite(h.initiator.states, h.initiator.dead());
    lemma_bump(h.peer);
    let peer_bumped = h.peer.bump();
    let syn_digest = h.syn.kind->Syn_digest;
    lemma_hear_digest(peer_bumped, syn_digest);
    let after_syn = h.peer_after_syn();
    assert(after_syn == peer_bumped.hear_digest(syn_digest));
    lemma_digests_finite(after_syn.states, after_syn.dead());
    lemma_bump(h.initiator);
    let initiator_bumped = h.initiator.bump();
    let peer_digest = h.syn_ack.kind->SynAck_digest;
    let peer_delta = h.syn_ack.kind->SynAck_delta;
    lemma_hear_digest(initiator_bumped, peer_digest);
    let heard_back = initiator_bumped.hear_digest(peer_digest);
    lemma_apply(heard_back, peer_delta@);
    lemma_bump(after_syn);
    let bumped = after_syn.bump();
    let delta = h.ack.kind->Ack_delta;
    lemma_apply(bumped, delta@);
    assert forall|id: MemberIdView|
        #![trigger h.peer.states.contains_key(id)]
        #![trigger after_syn.states.contains_key(id)]
        h.peer.states.contains_key(id) && after_syn.states.contains_key(id) implies same_key_values(
        h.peer.states[id],
        after_syn.states[id],
    ) by {
        assert(peer_bumped.states.contains_key(id));
    }
    assert forall|id: MemberIdView|
        #![trigger h.initiator.states.contains_key(id)]
        #![trigger heard_back.states.contains_key(id)]
        h.initiator.states.contains_key(id) && heard_back.states.contains_key(
            id,
        ) implies same_key_values(h.initiator.states[id], heard_back.states[id]) by {
        assert(initiator_bumped.states.contains_key(id));
    }
    assert forall|id: MemberIdView|
        !h.peer.states.contains_key(id) && #[trigger] after_syn.states.contains_key(
            id,
        ) implies same_key_values(after_syn.states[id], MemberStateView::unheard(id)) by {
        assert(!peer_bumped.states.contains_key(id));
    }
    assert forall|id: MemberIdView|
        !h.initiator.states.contains_key(id) && #[trigger] heard_back.states.contains_key(
            id,
        ) implies same_key_values(heard_back.states[id], MemberStateView::unheard(id)) by {
        assert(!initiator_bumped.states.contains_key(id));
    }
    (heard_back, bumped)
}

proof fn lemma_unheard_is_prefix(held: MemberStateView, source: MemberStateView)
    requires
        source.valid(),
        same_key_values(held, MemberStateView::unheard(source.member_id)),
    ensures
        prefix_of(held, source),
{
    assert(up_to(source.key_values, 0) =~= Map::empty());
}

/// One of the two holds a prefix of what the other holds of a member that both know.
pub open spec fn comparable(a: MemberStates, b: MemberStates, id: MemberIdView) -> bool {
    a.contains_key(id) && b.contains_key(id) ==> prefix_of(a[id], b[id]) || prefix_of(b[id], a[id])
}

/// The longer of what two members hold of a third.
pub open spec fn longer(a: MemberStates, b: MemberStates, id: MemberIdView) -> MemberStateView {
    if !b.contains_key(id) || (a.contains_key(id) && a[id].max_version >= b[id].max_version) {
        a[id]
    } else {
        b[id]
    }
}

/// A handshake in which nothing is cut off brings its two sides to the same key-values: of
/// each member that either knows and neither takes for dead, both then hold the longer of
/// what the two held.
pub proof fn law_handshake_converges(h: Handshake, id: MemberIdView)
    requires
        h.takes_place(),
        h.fits(),
        h.initiator.states.contains_key(id) || h.peer.states.contains_key(id),
        !h.initiator.dead().contains(id),
        !h.peer.dead().contains(id),
        comparable(h.initiator.states, h.peer.states, id),
    ensures
        h.initiator_after().states.contains_key(id),
        h.peer_after().states.contains_key(id),
        same_key_values(
            h.initiator_after().states[id],
            longer(h.initiator.states, h.peer.states, id),
        ),
        same_key_values(
            h.peer_after().states[id],
            longer(h.initiator.states, h.peer.states, id),
        ),
{
    let (heard_back, bumped) = lemma_turns(h);
    let after_syn = h.peer_after_syn();
    let after_ack = h.initiator_after();
    let digest = h.initiator_digest();
    let peer_digest = h.peer_digest();
    let syn_ack_delta = h.syn_ack.kind->SynAck_delta@;
    let ack_delta = h.ack.kind->Ack_delta@;
    let syn_ack_room = room(
        h.peer.header_len() + h.syn_ack.kind->SynAck_digest.encoding().len(),
    );
    let goal = longer(h.initiator.states, h.peer.states, id);
    assert(digest.contains_key(id) <==> h.initiator.states.contains_key(id));
    assert(after_syn.states.contains_key(id));
    assert(peer_digest.contains_key(id));
    assert(heard_back.states.contains_key(id));
    assert(bumped.states.contains_key(id));
    let mine = heard_back.states[id];
    let theirs = after_syn.states[id];
    assert(prefix_of(mine, theirs) || prefix_of(theirs, mine)) by {
        if !h.initiator.states.contains_key(id) {
            lemma_unheard_is_prefix(mine, theirs);
        } else if !h.peer.states.contains_key(id) {
            lemma_unheard_is_prefix(theirs, mine);
        }
    }
    assert(answers(heard_back.states, digest)) by {
        assert forall|x: MemberIdView| #[trigger] heard_back.states.contains_key(
            x,
        ) implies known_version(digest, x) <= heard_back.states[x].max_version by {
            if h.initiator.states.contains_key(x) {
                assert(same_key_values(h.initiator.states[x], heard_back.states[x]));
            }
        }
    }
    assert(answers(bumped.states, peer_digest)) by {
        assert forall|x: MemberIdView| #[trigger] bumped.states.contains_key(
            x,
        ) implies known_version(peer_digest, x) <= bumped.states[x].max_version by {
            assert(same_key_values(after_syn.states[x], bumped.states[x]));
        }
    }
    assert(same_key_values(
        goal,
        if prefix_of(mine, theirs) {
            theirs
        } else {
            mine
        },
    )) by {
        if prefix_of(mine, theirs) {
            lemma_longer(mine, theirs);
        } else {
            lemma_longer(theirs, mine);
        }
    }
    law_unknown_members_are_ignored(heard_back.states, syn_ack_delta);
    law_unknown_members_are_ignored(bumped.states, ack_delta);
    assert(same_key_values(bumped.states[id], theirs));
    if prefix_of(mine, theirs) {
        law_receiver_catches_up(
            heard_back.states,
            after_syn.states,
            digest,
            h.peer.dead(),
            syn_ack_room,
            syn_ack_delta,
            id,
        );
        assert(same_key_values(after_ack.states[id], theirs));
        law_delta_adds_nothing_known(
            bumped.states,
            after_ack.states,
            peer_digest,
            h.initiator.dead(),
            room(h.initiator.header_len()),
            ack_delta,
            id,
        );
    } else {
        law_delta_adds_nothing_known(
            heard_back.states,
            after_syn.states,
            digest,
            h.peer.dead(),
            syn_ack_room,
            syn_ack_delta,
            id,
        );
        assert(same_key_values(after_ack.states[id], mine));
        assert(prefix_of(bumped.states[id], after_ack.states[id]));
        law_receiver_catches_up(
            bumped.states,
            after_ack.states,
            peer_digest,
            h.initiator.dead(),
            room(h.initiator.header_len()),
            ack_delta,
            id,
        );
    }
}

/// A prefix that is as long as its source is its source.
proof fn lemma_longer(held: MemberStateView, source: MemberStateView)
    requires
        source.valid(),
        prefix_of(held, source),
    ensures
        held.max_version >= source.max_version ==> same_key_values(held, source),
{
    if held.max_version >= source.max_version {
        assert(held.key_values =~= source.key_values);
    }
}

/// A handshake between members that hold the same of a third changes nothing of it, however
/// much is cut off.
pub proof fn law_handshake_changes_nothing_shared(h: Handshake, id: MemberIdView)
    requires
        h.takes_place(),
        h.initiator.states.contains_key(id),
        h.peer.states.contains_key(id),
        same_key_values(h.initiator.states[id], h.peer.states[id]),
    ensures
        same_key_values(h.initiator_after().states[id], h.initiator.states[id]),
        same_key_values(h.peer_after().states[id], h.peer.states[id]),
{
    let (heard_back, bumped) = lemma_turns(h);
    assert(heard_back.states.contains_key(id));
    assert(bumped.states.contains_key(id));
    law_delta_adds_nothing_known(
        heard_back.states,
        h.peer_after_syn().states,
        h.initiator_digest(),
        h.peer.dead(),
        room(h.peer.header_len() + h.syn_ack.kind->SynAck_digest.encoding().len()),
        h.syn_ack.kind->SynAck_delta@,
        id,
    );
    law_delta_adds_nothing_known(
        bumped.states,
        h.initiator_after().states,
        h.peer_digest(),
        h.initiator.dead(),
        room(h.initiator.header_len()),
        h.ack.kind->Ack_delta@,
        id,
    );
}

/// A message of another cluster changes nothing and gets no reply.
pub proof fn law_foreign_message_is_dropped(member: TchatcheView, message: Message, reply: Option<Message>)
    requires
        message.cluster_id@ != member.cluster_id,
        member.receive(message).replies(message, reply),
    ensures
        member.receive(message) == member,
        reply is None,
{
}

/// A reply fits a datagram, unless its header and digest alone do not.
pub proof fn law_reply_fits_a_datagram(member: TchatcheView, message: Message, reply: Message)
    requires
        member.valid(),
        member.replies(message, Some(reply)),
        member.header_len() + (match reply.kind {
            MessageKind::SynAck { digest, .. } => digest.encoding().len(),
            _ => 0,
        }) <= MAX_UDP_DATAGRAM_PAYLOAD_SIZE,
    ensures
        reply.encoding().len() <= MAX_UDP_DATAGRAM_PAYLOAD_SIZE,
{
    lemma_header_len(reply.cluster_id@, reply.kind.message_type());
    match message.kind {
        MessageKind::Syn { digest } => {
            let own = reply.kind->SynAck_digest;
            let delta = reply.kind->SynAck_delta;
            law_partial_delta_continues_the_digest(
                member.states,
                digest@,
                member.dead(),
                room(member.header_len() + own.encoding().len()),
                delta@,
            );
        },
        MessageKind::SynAck { digest, .. } => {
            law_partial_delta_continues_the_digest(
                member.states,
                digest@,
                member.dead(),
                room(member.header_len()),
                reply.kind->Ack_delta@,
            );
        },
        MessageKind::Ack { .. } => {},
    }
}

/// Dead members are not shared: neither the digests nor the deltas that a member sends name
/// one.
pub proof fn law_dead_members_are_not_shared(
    member: TchatcheView,
    message: Message,
    reply: Message,
    id: MemberIdView,
)
    requires
        member.valid(),
        member.replies(message, Some(reply)),
        member.dead().contains(id),
    ensures
        !digests(member.states, member.dead()).contains_key(id),
        match reply.kind {
            MessageKind::SynAck { digest, delta } => !digest@.contains_key(id) && !names(
                delta@,
                id,
            ),
            MessageKind::Ack { delta } => !names(delta@, id),
            MessageKind::Syn { .. } => true,
        },
{
    match message.kind {
        MessageKind::Syn { digest } => {
            let own = reply.kind->SynAck_digest;
            law_partial_delta_continues_the_digest(
                member.states,
                digest@,
                member.dead(),
                room(member.header_len() + own.encoding().len()),
                reply.kind->SynAck_delta@,
            );
        },
        MessageKind::SynAck { digest, .. } => {
            law_partial_delta_continues_the_digest(
                member.states,
                digest@,
                member.dead(),
                room(member.header_len()),
                reply.kind->Ack_delta@,
            );
        },
        MessageKind::Ack { .. } => {},
    }
}

/// A delta holds something of a member.
pub open spec fn names(delta: Seq<MemberDeltaView>, id: MemberIdView) -> bool {
    exists|i: int| 0 <= i < delta.len() && (#[trigger] delta[i]).member_id == id
}

/// Whatever arrives, no member that is known is lost, no version held of it goes down, and no
/// heartbeat goes back.
pub proof fn law_receiving_loses_nothing(member: TchatcheView, message: Message, id: MemberIdView)
    requires
        member.valid(),
        message.wf(),
        member.self_state().heartbeat.0 < u64::MAX,
        member.states.contains_key(id),
    ensures
        member.receive(message).states.contains_key(id),
        member.receive(message).states[id].max_version >= member.states[id].max_version,
        member.receive(message).states[id].heartbeat.0 >= member.states[id].heartbeat.0,
{
    let bumped = member.bump();
    lemma_bump(member);
    match message.kind {
        MessageKind::Syn { digest } => {},
        MessageKind::SynAck { digest, delta } => {
            lemma_entries_map(digest.member_digests.entries());
            lemma_hear_digest(bumped, digest);
            lemma_apply_never_goes_back(bumped.hear_digest(digest), delta@, id);
        },
        MessageKind::Ack { delta } => {
            lemma_apply_never_goes_back(bumped, delta@, id);
        },
    }
}

proof fn lemma_apply_never_goes_back(
    member: TchatcheView,
    delta: Seq<MemberDeltaView>,
    id: MemberIdView,
)
    requires
        member.valid(),
        member.states.contains_key(id),
    ensures
        member.apply(delta).states.contains_key(id),
        member.apply(delta).states[id].max_version >= member.states[id].max_version,
        member.apply(delta).states[id].heartbeat == member.states[id].heartbeat,
    decreases delta.len(),
{
    if delta.len() > 0 {
        let front = delta.drop_last();
        lemma_apply_never_goes_back(member, front, id);
        lemma_apply(member, front);
        let before = apply_deltas(member.states, front);
        if before.contains_key(delta.last().member_id) {
            law_delta_never_goes_back(before[delta.last().member_id], delta.last());
        }
    }
}

/// Judging the members keeps oneself: a member never takes itself for dead, is never
/// forgotten by itself, and always counts itself among the live.
pub proof fn law_self_stays_alive(
    member: TchatcheView,
    available: Set<MemberIdView>,
    now: Nanos,
)
    requires
        member.valid(),
    ensures
        !member.after_liveness(available, now).dead().contains(member.self_id),
        member.after_liveness(available, now).states.contains_key(member.self_id),
        member.after_liveness(available, now).previous_live.contains_key(member.self_id),
        member.after_liveness(available, now).self_state() == member.self_state(),
{
}

/// Only dead members are forgotten, and only once their quarantine is over.
pub proof fn law_only_the_quarantined_are_forgotten(
    member: TchatcheView,
    available: Set<MemberIdView>,
    now: Nanos,
    id: MemberIdView,
)
    requires
        member.valid(),
        member.states.contains_key(id),
        !member.after_liveness(available, now).states.contains_key(id),
    ensures
        member.judged(available, now).dead.contains_key(id),
        member.judged(available, now).dead[id] + member.quarantine_period < now,
        !(available.contains(id) && member.detector.samples.contains_key(id)),
{
}

/// States of which nothing is lost on the wire: identities, keys and values are short enough,
/// and there are few enough members for a digest to count.
pub open spec fn sendable_states(states: MemberStates) -> bool {
    &&& states.len() < 0x1_0000
    &&& forall|id: MemberIdView| #[trigger]
        states.contains_key(id) ==> {
            &&& sendable_member_id(id)
            &&& forall|k: Seq<char>| #[trigger]
                states[id].key_values.contains_key(k) ==> sendable_str(k) && sendable_str(
                    states[id].key_values[k].value,
                )
        }
}

proof fn lemma_digest_is_sendable(states: MemberStates, exclude: Set<MemberIdView>, digest: Digest)
    requires
        valid_states(states),
        sendable_states(states),
        digest.wf(),
        digest@ == digests(states, exclude),
    ensures
        sendable_digest(digest),
{
    let entries = digest.member_digests.entries();
    lemma_entries_map(entries);
    assert(digest@.dom().subset_of(states.dom()));
    vstd::set_lib::lemma_len_subset(digest@.dom(), states.dom());
    assert forall|i: int| 0 <= i < entries.len() implies sendable_member_id(
        #[trigger] entries[i].0@,
    ) by {
        assert(digest@.contains_key(entries[i].0.key()));
    }
}

proof fn lemma_delta_is_sendable(
    states: MemberStates,
    digest: Map<MemberIdView, MemberDigest>,
    exclude: Set<MemberIdView>,
    mtu: usize,
    delta: Seq<MemberDeltaView>,
)
    requires
        valid_states(states),
        sendable_states(states),
        partial_delta_for(states, digest, exclude, mtu, delta),
    ensures
        sendable_delta(delta),
{
    law_partial_delta_continues_the_digest(states, digest, exclude, mtu, delta);
    assert forall|i: int| 0 <= i < delta.len() implies {
        &&& sendable_member_id((#[trigger] delta[i]).member_id)
        &&& increasing(delta[i])
        &&& forall|j: int|
            0 <= j < delta[i].key_values.len() ==> sendable_key_value(
                #[trigger] delta[i].key_values[j],
            )
    } by {
        let id = delta[i].member_id;
        let from = known_version(digest, id);
        let whole = whole_member_delta(states[id], from).key_values;
        assert(states.contains_key(id));
        lemma_listed(states[id].key_values, from as nat, states[id].max_version as nat);
        assert forall|j: int| 0 <= j < delta[i].key_values.len() implies sendable_key_value(
            #[trigger] delta[i].key_values[j],
        ) by {
            assert(delta[i].key_values[j] == whole[j]);
            assert(states[id].key_values.contains_key(whole[j].key));
        }
    }
}

/// What a member sends is read back as it was written: the message that opens a handshake.
pub proof fn law_syn_survives_the_wire(member: TchatcheView, syn: Message)
    requires
        member.valid(),
        sendable_str(member.cluster_id),
        sendable_states(member.states),
        syn.wf(),
        syn@ == member.syn(),
    ensures
        decode_message(syn.encoding()) == (
            Ok::<MessageView, DeserializeError>(syn@),
            Seq::<u8>::empty(),
        ),
{
    lemma_digest_is_sendable(member.states, member.dead(), syn.kind->Syn_digest);
    law_message_round_trip(syn);
}

/// What a member sends is read back as it was written: the replies of a handshake.
pub proof fn law_replies_survive_the_wire(member: TchatcheView, message: Message, reply: Message)
    requires
        member.valid(),
        sendable_str(member.cluster_id),
        sendable_states(member.states),
        member.replies(message, Some(reply)),
    ensures
        decode_message(reply.encoding()) == (
            Ok::<MessageView, DeserializeError>(reply@),
            Seq::<u8>::empty(),
        ),
{
    match message.kind {
        MessageKind::Syn { digest } => {
            let own = reply.kind->SynAck_digest;
            lemma_digest_is_sendable(member.states, member.dead(), own);
            lemma_delta_is_sendable(
                member.states,
                digest@,
                member.dead(),
                room(member.header_len() + own.encoding().len()),
                reply.kind->SynAck_delta@,
            );
        },
        MessageKind::SynAck { digest, .. } => {
            lemma_delta_is_sendable(
                member.states,
                digest@,
                member.dead(),
                room(member.header_len()),
                reply.kind->Ack_delta@,
            );
        },
        MessageKind::Ack { .. } => {},
    }
    law_message_round_trip(reply);
}

/// A message that names only members of `sources`, and whose delta is genuine.
pub open spec fn genuine_message(message: Message, sources: MemberStates) -> bool {
    match message.kind {
        MessageKind::Syn { digest } => digest@.dom().subset_of(sources.dom()),
        MessageKind::SynAck { digest, delta } => digest@.dom().subset_of(sources.dom())
            && genuine(delta@, sources),
        MessageKind::Ack { delta } => genuine(delta@, sources),
    }
}

/// Members that exchange messages, in whatever order these arrive, hold of one another only
/// prefixes of what each holds of itself, and send nothing else.
pub proof fn law_members_hold_prefixes(
    member: TchatcheView,
    sources: MemberStates,
    message: Message,
    reply: Option<Message>,
)
    requires
        member.valid(),
        valid_states(sources),
        all_prefixes(member.states, sources),
        message.wf(),
        genuine_message(message, sources),
        member.receive(message).replies(message, reply),
    ensures
        all_prefixes(member.receive(message).states, sources),
        reply matches Some(reply) ==> genuine_message(reply, sources),
{
    let after = member.receive(message);
    if message.cluster_id@ == member.cluster_id {
        let bumped = member.bump();
        lemma_bump(member);
        assert(all_prefixes(bumped.states, sources)) by {
            assert forall|id: MemberIdView| #[trigger] bumped.states.contains_key(
                id,
            ) implies sources.contains_key(id) && prefix_of(bumped.states[id], sources[id]) by {
                assert(member.states.contains_key(id));
            }
        }
        match message.kind {
            MessageKind::Syn { digest } => {
                lemma_hearing_keeps_prefixes(bumped, sources, digest);
                let own = reply->Some_0.kind->SynAck_digest;
                law_sent_deltas_are_genuine(
                    after.states,
                    sources,
                    digest@,
                    after.dead(),
                    room(after.header_len() + own.encoding().len()),
                    reply->Some_0.kind->SynAck_delta@,
                );
                assert(own@.dom().subset_of(sources.dom())) by {
                    assert forall|id: MemberIdView| own@.contains_key(
                        id,
                    ) implies sources.contains_key(id) by {
                        assert(after.states.contains_key(id));
                    }
                }
            },
            MessageKind::SynAck { digest, delta } => {
                lemma_hearing_keeps_prefixes(bumped, sources, digest);
                let heard_back = bumped.hear_digest(digest);
                law_genuine_deltas_keep_prefixes(heard_back.states, sources, delta@);
                law_sent_deltas_are_genuine(
                    after.states,
                    sources,
                    digest@,
                    after.dead(),
                    room(after.header_len()),
                    reply->Some_0.kind->Ack_delta@,
                );
            },
            MessageKind::Ack { delta } => {
                law_genuine_deltas_keep_prefixes(bumped.states, sources, delta@);
            },
        }
    }
}

proof fn lemma_hearing_keeps_prefixes(member: TchatcheView, sources: MemberStates, digest: Digest)
    requires
        member.valid(),
        valid_states(sources),
        all_prefixes(member.states, sources),
        digest.wf(),
        digest@.dom().subset_of(sources.dom()),
    ensures
        member.hear_digest(digest).valid(),
        all_prefixes(member.hear_digest(digest).states, sources),
{
    lemma_entries_map(digest.member_digests.entries());
    lemma_hear_digest(member, digest);
    let after = member.hear_digest(digest);
    assert forall|id: MemberIdView| #[trigger] after.states.contains_key(
        id,
    ) implies sources.contains_key(id) && prefix_of(after.states[id], sources[id]) by {
        if member.states.contains_key(id) {
            assert(same_key_values(member.states[id], after.states[id]));
        } else {
            assert(digest@.dom().contains(id));
            lemma_unheard_is_prefix(after.states[id], sources[id]);
        }
    }
}

} // verus!
