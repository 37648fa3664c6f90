//! A member: its state, and how it answers the messages of the gossip handshake.
use crate::cluster::{
    apply_deltas, digests, partial_delta_for, state_views, valid_states, ClusterState,
    MemberStates,
};
use crate::configuration::Config;
use crate::delta::{Delta, MemberDeltaView};
use crate::digest::{Digest, MemberDigest};
use crate::failure_detector::{
    ascending_ids, id_views, ref_views, FailureDetector, FailureDetectorView, HistoryStep, Nanos,
    PhiAccrual,
};
use crate::message::{Message, MessageKind, MessageKindView, MessageView};
use crate::order::OrderedKey;
use crate::ordered_map::{ascending, entries_map, lemma_entries_map, lemma_key_at, OrderedMap};
use crate::ordered_set::OrderedSet;
use crate::reconcile::law_unknown_members_are_ignored;
use crate::serialize::{add_lens, encode_str, saturated, Serializable};
use crate::state::{
    dense, last_values, numbered, pair_views, MemberState, MemberStateView,
};
use crate::types::{same_member, Heartbeat, MemberId, MemberIdView, SocketAddr, Version};
use vstd::prelude::*;

verus! {

/// Maximum UDP datagram payload size (in bytes). We send the self digest "in full", so we
/// pick a large payload that may span several IP fragments.
pub const MAX_UDP_DATAGRAM_PAYLOAD_SIZE: usize = 65_507;

/// A gossiping member.
#[derive(Debug)]
pub struct Tchatche {
    config: Config,
    cluster_state: ClusterState,
    failure_detector: FailureDetector,
    /// Tracks the live set (id -> max_version) to tell when it changes.
    previous_live_members: OrderedMap<MemberId, Version>,
}

/// What a [`Tchatche`] stands for.
#[verifier::ext_equal]
pub struct TchatcheView {
    pub self_id: MemberIdView,
    pub cluster_id: Seq<char>,
    pub quarantine_period: Nanos,
    pub states: MemberStates,
    pub seeds: Set<SocketAddr>,
    pub detector: FailureDetectorView,
    pub previous_live: Map<MemberIdView, Version>,
}

/// What a digest entry says of a member that may be new.
pub open spec fn known_or_unheard(states: MemberStates, id: MemberIdView) -> MemberStateView {
    if states.contains_key(id) {
        states[id]
    } else {
        MemberStateView::unheard(id)
    }
}

/// The states after the heartbeats of a digest were heard: its members are learned, all but
/// oneself, and their heartbeats taken over.
pub open spec fn heard(
    states: MemberStates,
    self_id: MemberIdView,
    digest: Map<MemberIdView, MemberDigest>,
) -> MemberStates {
    Map::new(
        |id: MemberIdView| states.contains_key(id) || (digest.contains_key(id) && id != self_id),
        |id: MemberIdView|
            if digest.contains_key(id) && id != self_id {
                known_or_unheard(states, id).hear(digest[id].heartbeat)
            } else {
                states[id]
            },
    )
}

/// Whether a digest entry brings a later heartbeat of another member that was heard before.
pub open spec fn is_news(
    states: MemberStates,
    self_id: MemberIdView,
    id: MemberIdView,
    heartbeat: Heartbeat,
) -> bool {
    &&& id != self_id
    &&& states.contains_key(id)
    &&& 0 < states[id].heartbeat.0 < heartbeat.0
}

/// The members of whom digest entries bring news.
pub open spec fn news(
    states: MemberStates,
    self_id: MemberIdView,
    entries: Seq<(MemberIdView, MemberDigest)>,
) -> Seq<MemberIdView>
    decreases entries.len(),
{
    if entries.len() == 0 {
        Seq::empty()
    } else {
        let earlier = news(states, self_id, entries.drop_last());
        let (id, digest) = entries.last();
        if is_news(states, self_id, id, digest.heartbeat) {
            earlier.push(id)
        } else {
            earlier
        }
    }
}

/// The room that is left in a datagram after `used` bytes.
pub open spec fn room(used: nat) -> usize {
    if used <= MAX_UDP_DATAGRAM_PAYLOAD_SIZE {
        (MAX_UDP_DATAGRAM_PAYLOAD_SIZE - used) as usize
    } else {
        0
    }
}

/// The live members that are known, with the versions held of them.
pub open spec fn live_versions(
    states: MemberStates,
    self_id: MemberIdView,
    live: Set<MemberIdView>,
) -> Map<MemberIdView, Version> {
    Map::new(
        |id: MemberIdView| (id == self_id || live.contains(id)) && states.contains_key(id),
        |id: MemberIdView| states[id].max_version,
    )
}

impl TchatcheView {
    /// Oneself is known, and neither watched for life nor for death; only known members are
    /// live or dead.
    pub open spec fn valid(self) -> bool {
        &&& valid_states(self.states)
        &&& self.detector.valid()
        &&& self.states.contains_key(self.self_id)
        &&& !self.detector.live.contains(self.self_id)
        &&& !self.detector.dead.contains_key(self.self_id)
        &&& self.detector.live.subset_of(self.states.dom())
        &&& self.detector.dead.dom().subset_of(self.states.dom())
    }

    /// The dead members, which are not shared.
    pub open spec fn dead(self) -> Set<MemberIdView> {
        self.detector.dead.dom()
    }

    pub open spec fn self_state(self) -> MemberStateView {
        self.states[self.self_id]
    }

    /// After one's own heartbeat was bumped.
    pub open spec fn bump(self) -> TchatcheView {
        let state = self.self_state();
        TchatcheView {
            states: self.states.insert(
                self.self_id,
                (MemberStateView {
                    heartbeat: Heartbeat((state.heartbeat.0 + 1) as u64),
                    ..state
                }),
            ),
            ..self
        }
    }

    /// After a heartbeat of a member was heard.
    pub open spec fn hear(self, id: MemberIdView, heartbeat: Heartbeat) -> TchatcheView {
        if id == self.self_id {
            self
        } else {
            TchatcheView {
                states: self.states.insert(
                    id,
                    known_or_unheard(self.states, id).hear(heartbeat),
                ),
                detector: if is_news(self.states, self.self_id, id, heartbeat) {
                    FailureDetectorView {
                        reported: self.detector.reported.push(id),
                        ..self.detector
                    }
                } else {
                    self.detector
                },
                ..self
            }
        }
    }

    /// After the heartbeats of a digest were heard.
    pub open spec fn hear_digest(self, digest: Digest) -> TchatcheView {
        TchatcheView {
            states: heard(self.states, self.self_id, digest@),
            detector: FailureDetectorView {
                reported: self.detector.reported + news(
                    self.states,
                    self.self_id,
                    digest.entry_views(),
                ),
                ..self.detector
            },
            ..self
        }
    }

    /// After a delta was applied.
    pub open spec fn apply(self, delta: Seq<MemberDeltaView>) -> TchatcheView {
        TchatcheView { states: apply_deltas(self.states, delta), ..self }
    }

    /// The failure detector after all other members were judged.
    pub open spec fn judged(self, available: Set<MemberIdView>, now: Nanos) -> FailureDetectorView {
        self.detector.judge_all(self.states.dom().remove(self.self_id), available, now)
    }

    /// The live members after all other members were judged, with the versions held of them.
    pub open spec fn live_after(self, available: Set<MemberIdView>, now: Nanos) -> Map<
        MemberIdView,
        Version,
    > {
        live_versions(self.states, self.self_id, self.judged(available, now).live)
    }

    /// The members that are forgotten after all other members were judged.
    pub open spec fn forgotten_after(self, available: Set<MemberIdView>, now: Nanos) -> Set<
        MemberIdView,
    > {
        self.judged(available, now).collected(now, self.quarantine_period)
    }

    /// After all other members were judged, and those forgotten whose quarantine is over.
    pub open spec fn after_liveness(self, available: Set<MemberIdView>, now: Nanos) -> TchatcheView {
        TchatcheView {
            states: self.states.remove_keys(self.forgotten_after(available, now)),
            detector: self.judged(available, now).collect(now, self.quarantine_period),
            previous_live: self.live_after(available, now),
            ..self
        }
    }

    /// The first step of a handshake: the digest of the members that are not dead.
    pub open spec fn syn(self) -> MessageView {
        MessageView {
            cluster_id: self.cluster_id,
            kind: MessageKindView::Syn { digest: digests(self.states, self.dead()) },
        }
    }

    /// The bytes that the message framing adds before the payload.
    pub open spec fn header_len(self) -> nat {
        4 + encode_str(self.cluster_id).len()
    }

    /// After a message was received.
    pub open spec fn receive(self, message: Message) -> TchatcheView {
        if message.cluster_id@ != self.cluster_id {
            self
        } else {
            match message.kind {
                MessageKind::Syn { digest } => self.bump().hear_digest(digest),
                MessageKind::SynAck { digest, delta } => self.bump().hear_digest(digest).apply(
                    delta@,
                ),
                MessageKind::Ack { delta } => self.bump().apply(delta@),
            }
        }
    }

    /// Whether `reply` answers a message, `self` being what is known after receiving it.
    pub open spec fn replies(self, message: Message, reply: Option<Message>) -> bool {
        if message.cluster_id@ != self.cluster_id {
            reply is None
        } else {
            match message.kind {
                MessageKind::Syn { digest } => {
                    &&& reply matches Some(reply)
                    &&& reply.wf()
                    &&& reply.cluster_id@ == self.cluster_id
                    &&& reply.kind matches MessageKind::SynAck { digest: own, delta }
                    &&& own@ == digests(self.states, self.dead())
                    &&& partial_delta_for(
                        self.states,
                        digest@,
                        self.dead(),
                        room(self.header_len() + own.encoding().len()),
                        delta@,
                    )
                },
                MessageKind::SynAck { digest, .. } => {
                    &&& reply matches Some(reply)
                    &&& reply.cluster_id@ == self.cluster_id
                    &&& reply.kind matches MessageKind::Ack { delta }
                    &&& partial_delta_for(
                        self.states,
                        digest@,
                        self.dead(),
                        room(self.header_len()),
                        delta@,
                    )
                },
                MessageKind::Ack { .. } => reply is None,
            }
        }
    }
}

impl View for Tchatche {
    type V = TchatcheView;

    closed spec fn view(&self) -> TchatcheView {
        TchatcheView {
            self_id: self.config.member_id@,
            cluster_id: self.config.cluster_id@,
            quarantine_period: self.config.quarantine_period,
            states: self.cluster_state.states(),
            seeds: self.cluster_state.seeds(),
            detector: self.failure_detector@,
            previous_live: self.previous_live_members@,
        }
    }
}

impl Tchatche {
    /// The parts are well-formed.
    pub closed spec fn ordered(&self) -> bool {
        self.cluster_state.wf() && self.failure_detector.wf() && self.previous_live_members.wf()
    }

    pub open spec fn wf(&self) -> bool {
        self.ordered() && self@.valid()
    }

    pub fn new(
        config: Config,
        seed_addrs: OrderedSet<SocketAddr>,
        key_values: Vec<(String, String)>,
    ) -> (tchatche: Self)
        requires
            seed_addrs.wf(),
        ensures
            tchatche.wf(),
            tchatche@.self_id == config.member_id@,
            tchatche@.cluster_id == config.cluster_id@,
            tchatche@.quarantine_period == config.quarantine_period,
            tchatche@.seeds == seed_addrs@,
            tchatche@.states.dom() == set![config.member_id@],
            tchatche@.self_state().heartbeat == Heartbeat(1),
            numbered(
                tchatche@.self_state().key_values,
                last_values(pair_views(key_values@)),
            ),
            tchatche@.self_state().max_version == last_values(pair_views(key_values@)).len(),
            dense(tchatche@.self_state().key_values, tchatche@.self_state().max_version),
            tchatche@.detector == (FailureDetectorView {
                max_sample_size: config.max_sample_size,
                samples: Map::empty(),
                reported: Seq::empty(),
                live: Set::empty(),
                dead: Map::empty(),
            }),
            tchatche@.previous_live == Map::<MemberIdView, Version>::empty(),
    {
        let failure_detector = FailureDetector::new(config.max_sample_size);
        let mut cluster_state = ClusterState::with_seed_addrs(seed_addrs);
        // Build the self member's immutable key-values, then bump its heartbeat once so it
        // answers SYNs as alive.
        let mut self_member_state = MemberState::with_key_values(
            config.member_id.clone(),
            key_values,
        );
        self_member_state.inc_heartbeat();
        cluster_state.insert_self_member_state(self_member_state);
        let tchatche = Tchatche {
            config,
            cluster_state,
            failure_detector,
            previous_live_members: OrderedMap::new(),
        };
        assert(tchatche@.states.dom() =~= set![config.member_id@]);
        tchatche
    }

    /// The dead members.
    fn dead_members_set(&self) -> (dead: OrderedSet<MemberId>)
        requires
            self.wf(),
        ensures
            dead.wf(),
            dead@ == self@.dead(),
    {
        let members = self.failure_detector.dead_members();
        let ghost ids = ref_views(members@);
        let mut dead: OrderedSet<MemberId> = OrderedSet::new();
        let len = members.len();
        let mut i: usize = 0;
        assert(ids.take(0).to_set() =~= Set::<MemberIdView>::empty());
        while i < len
            invariant
                i <= len,
                len == members@.len(),
                ids == ref_views(members@),
                dead.wf(),
                dead@ == ids.take(i as int).to_set(),
            decreases len - i,
        {
            dead.insert(members[i].clone());
            proof {
                lemma_take_to_set(ids, i as int);
            }
            i = i + 1;
        }
        assert(ids.take(len as int) =~= ids);
        dead
    }

    pub fn create_syn_message(&self) -> (message: Message)
        requires
            self.wf(),
        ensures
            message.wf(),
            message@ == self@.syn(),
    {
        let dead = self.dead_members_set();
        let digest = self.cluster_state.compute_digest(&dead);
        Message::new(self.config.cluster_id.clone(), MessageKind::Syn { digest })
    }

    /// Bytes the message framing adds before the delta (magic + version + cluster_id +
    /// message tag).
    pub fn header_overhead(&self) -> (len: usize)
        ensures
            len == saturated(self@.header_len()),
    {
        add_lens(
            4,
            self.config.cluster_id.serialized_len(),
            Ghost(4),
            Ghost(encode_str(self.config.cluster_id@).len()),
        )
    }

    pub fn update_self_heartbeat(&mut self)
        requires
            old(self).wf(),
            old(self)@.self_state().heartbeat.0 < u64::MAX,
        ensures
            final(self).wf(),
            final(self)@ == old(self)@.bump(),
    {
        let ghost before = self@;
        self.cluster_state.member_state_mut_or_init(&self.config.member_id).inc_heartbeat();
        assert(self@ =~= before.bump());
    }

    fn report_heartbeat(&mut self, member_id: &MemberId, heartbeat: Heartbeat)
        requires
            old(self).wf(),
        ensures
            final(self).wf(),
            final(self)@ == old(self)@.hear(member_id@, heartbeat),
    {
        let ghost before = self@;
        if same_member(member_id, &self.config.member_id) {
            return;
        }
        // Learn the member if we don't know it yet (membership discovery), then feed its
        // heartbeat to the failure detector.
        let member_state = self.cluster_state.member_state_mut_or_init(member_id);
        if member_state.try_set_heartbeat(heartbeat) {
            self.failure_detector.report_heartbeat(member_id);
        }
        assert(self@ =~= before.hear(member_id@, heartbeat));
    }

    fn report_heartbeats_in_digest(&mut self, digest: &Digest)
        requires
            old(self).wf(),
            digest.wf(),
        ensures
            final(self).wf(),
            final(self)@ == old(self)@.hear_digest(*digest),
    {
        let ghost before = self@;
        let ghost entries = digest.member_digests.entries();
        let ghost views = digest.entry_views();
        let len = digest.member_digests.len();
        let mut i: usize = 0;
        proof {
            assert(entries.take(0) =~= Seq::empty());
            assert(views.take(0) =~= Seq::empty());
            assert(heard(before.states, before.self_id, Map::empty()) =~= before.states);
            assert(before.detector.reported + Seq::<MemberIdView>::empty()
                =~= before.detector.reported);
        }
        while i < len
            invariant
                i <= len,
                len == entries.len(),
                digest.wf(),
                entries == digest.member_digests.entries(),
                views == digest.entry_views(),
                self.wf(),
                self@ == heard_entries(before, entries.take(i as int), views.take(i as int)),
            decreases len - i,
        {
            let member_id = digest.member_digests.key_at(i);
            let heartbeat = digest.member_digests.value_at(i).heartbeat;
            self.report_heartbeat(member_id, heartbeat);
            proof {
                assert(views[i as int] == (entries[i as int].0@, entries[i as int].1));
                lemma_hear_step(before, entries, views, i as int);
            }
            i = i + 1;
        }
        proof {
            assert(entries.take(len as int) =~= entries);
            assert(views.take(len as int) =~= views);
            assert(self@ =~= before.hear_digest(*digest));
        }
    }

    /// Handles a message, and answers it where the handshake goes on.
    pub fn process_message(&mut self, message: Message) -> (reply: Option<Message>)
        requires
            old(self).wf(),
            message.wf(),
            message.cluster_id@ == old(self)@.cluster_id ==> old(self)@.self_state().heartbeat.0
                < u64::MAX,
        ensures
            final(self).wf(),
            final(self)@ == old(self)@.receive(message),
            final(self)@.replies(message, reply),
    {
        if message.cluster_id != self.config.cluster_id {
            // A message for a different cluster; drop it.
            return None;
        }
        // Every received message is a sign of life; bump our own heartbeat.
        self.update_self_heartbeat();
        match message.kind {
            MessageKind::Syn { digest } => {
                self.report_heartbeats_in_digest(&digest);
                let dead = self.dead_members_set();
                let self_digest = self.cluster_state.compute_digest(&dead);
                let used = add_lens(
                    self.header_overhead(),
                    self_digest.serialized_len(),
                    Ghost(self@.header_len()),
                    Ghost(self_digest.encoding().len()),
                );
                let delta_mtu = MAX_UDP_DATAGRAM_PAYLOAD_SIZE.saturating_sub(used);
                assert(delta_mtu == room(self@.header_len() + self_digest.encoding().len()));
                let delta = self.cluster_state.compute_partial_delta_respecting_mtu(
                    &digest,
                    delta_mtu,
                    &dead,
                );
                Some(
                    Message::new(
                        self.config.cluster_id.clone(),
                        MessageKind::SynAck { digest: self_digest, delta },
                    ),
                )
            },
            MessageKind::SynAck { digest, delta } => {
                self.report_heartbeats_in_digest(&digest);
                self.apply_delta(delta);
                let dead = self.dead_members_set();
                let delta_mtu = MAX_UDP_DATAGRAM_PAYLOAD_SIZE.saturating_sub(
                    self.header_overhead(),
                );
                assert(delta_mtu == room(self@.header_len()));
                let delta = self.cluster_state.compute_partial_delta_respecting_mtu(
                    &digest,
                    delta_mtu,
                    &dead,
                );
                Some(Message::new(self.config.cluster_id.clone(), MessageKind::Ack { delta }))
            },
            MessageKind::Ack { delta } => {
                self.apply_delta(delta);
                None
            },
        }
    }

    fn apply_delta(&mut self, delta: Delta)
        requires
            old(self).wf(),
        ensures
            final(self).wf(),
            final(self)@ == old(self)@.apply(delta@),
    {
        let ghost before = self@;
        self.cluster_state.apply_delta(delta);
        proof {
            law_unknown_members_are_ignored(before.states, delta@);
            assert(self@ =~= before.apply(delta@));
        }
    }

    /// The live members that are known, with the versions held of them.
    fn current_live_members(&self) -> (current: OrderedMap<MemberId, Version>)
        requires
            self.ordered(),
        ensures
            current.wf(),
            current@ == live_versions(self@.states, self@.self_id, self@.detector.live),
    {
        let mut current: OrderedMap<MemberId, Version> = OrderedMap::new();
        if let Some(member_state) = self.cluster_state.member_state(&self.config.member_id) {
            current.insert(self.config.member_id.clone(), member_state.max_version());
        }
        let members = self.failure_detector.live_members();
        let ghost ids = ref_views(members@);
        let ghost states = self@.states;
        let len = members.len();
        let mut i: usize = 0;
        proof {
            assert(ids.take(0).to_set() =~= Set::<MemberIdView>::empty());
            assert(current@ =~= live_versions(states, self@.self_id, ids.take(0).to_set()));
        }
        while i < len
            invariant
                i <= len,
                len == members@.len(),
                ids == ref_views(members@),
                states == self@.states,
                self.ordered(),
                current.wf(),
                current@ == live_versions(states, self@.self_id, ids.take(i as int).to_set()),
            decreases len - i,
        {
            if let Some(member_state) = self.cluster_state.member_state(members[i]) {
                current.insert(members[i].clone(), member_state.max_version());
            }
            proof {
                lemma_take_to_set(ids, i as int);
                assert(ids[i as int] == members@[i as int]@);
                assert(current@ =~= live_versions(
                    states,
                    self@.self_id,
                    ids.take(i + 1).to_set(),
                ));
            }
            i = i + 1;
        }
        assert(ids.take(len as int) =~= ids);
        current
    }

    /// Judges every other member.
    fn judge_members(&mut self, available: &OrderedSet<MemberId>, now: Nanos)
        requires
            old(self).wf(),
            available.wf(),
        ensures
            final(self).wf(),
            final(self)@ == (TchatcheView {
                detector: old(self)@.judged(available@, now),
                ..old(self)@
            }),
    {
        let ghost before = self@;
        let ghost others = before.states.dom().remove(before.self_id);
        let members = self.cluster_state.members();
        let len = members.len();
        let ghost mut judged: Set<MemberIdView> = Set::empty();
        let mut i: usize = 0;
        proof {
            lemma_all_listed(ref_views(members@), before.states.dom());
            let none = before.detector.judge_all(Set::empty(), available@, now);
            assert(none.live =~= before.detector.live);
            assert(none.dead =~= before.detector.dead);
        }
        while i < len
            invariant
                i <= len,
                len == members@.len(),
                available.wf(),
                before.valid(),
                self.cluster_state.wf(),
                self.cluster_state.states() == before.states,
                self.cluster_state.seeds() == before.seeds,
                self.previous_live_members.wf(),
                self.previous_live_members@ == before.previous_live,
                self.config.member_id@ == before.self_id,
                self.config.cluster_id@ == before.cluster_id,
                self.config.quarantine_period == before.quarantine_period,
                self.failure_detector.wf(),
                self.failure_detector@ == before.detector.judge_all(judged, available@, now),
                forall|j: int|
                    0 <= j < len ==> before.states.contains_key((#[trigger] members@[j])@),
                forall|id: MemberIdView| #[trigger]
                    judged.contains(id) <==> id != before.self_id && exists|j: int|
                        0 <= j < i && (#[trigger] members@[j])@ == id,
            decreases len - i,
        {
            let member_id = members[i];
            let ghost id = members@[i as int]@;
            let ghost earlier = judged;
            if !same_member(member_id, &self.config.member_id) {
                self.failure_detector.update_member_liveness(
                    member_id,
                    available.contains(member_id),
                    now,
                );
                proof {
                    judged = judged.insert(id);
                    let after = before.detector.judge_all(judged, available@, now);
                    assert(self.failure_detector@.live =~= after.live);
                    assert(self.failure_detector@.dead =~= after.dead);
                }
            }
            proof {
                assert forall|x: MemberIdView| #[trigger]
                    judged.contains(x) <==> x != before.self_id && exists|j: int|
                        0 <= j < i + 1 && (#[trigger] members@[j])@ == x by {
                    if earlier.contains(x) {
                        let j = choose|j: int| 0 <= j < i && (#[trigger] members@[j])@ == x;
                        assert(members@[j]@ == x);
                    }
                    if x == id && x != before.self_id {
                        assert(members@[i as int]@ == x);
                    }
                }
            }
            i = i + 1;
        }
        proof {
            assert(judged =~= others) by {
                assert forall|id: MemberIdView| judged.contains(id) <==> others.contains(id) by {
                    if others.contains(id) {
                        assert(ref_views(members@).contains(id));
                        let j = choose|j: int|
                            0 <= j < members@.len() && ref_views(members@)[j] == id;
                        assert(members@[j]@ == id);
                    }
                }
            }
            let detector = self.failure_detector@;
            assert(!detector.live.contains(before.self_id));
            assert(!detector.dead.contains_key(before.self_id));
        }
    }

    /// The states of some members.
    fn states_of(&self, members: &OrderedMap<MemberId, Version>) -> (states: OrderedMap<
        MemberId,
        MemberState,
    >)
        requires
            self.ordered(),
            members.wf(),
        ensures
            states.wf(),
            forall|id: MemberIdView| #[trigger]
                states@.contains_key(id) ==> states@[id].wf(),
            state_views(states@) == self@.states.restrict(members@.dom()),
    {
        let ghost entries = members.entries();
        let ghost known = self@.states;
        let mut states: OrderedMap<MemberId, MemberState> = OrderedMap::new();
        let len = members.len();
        let mut i: usize = 0;
        proof {
            lemma_entries_map(entries);
        }
        while i < len
            invariant
                i <= len,
                len == entries.len(),
                entries == members.entries(),
                known == self@.states,
                self.ordered(),
                states.wf(),
                forall|j: int|
                    0 <= j < len ==> members@.contains_key(#[trigger] entries[j].0.key()),
                forall|id: MemberIdView| #[trigger]
                    states@.contains_key(id) ==> {
                        &&& states@[id].wf()
                        &&& known.contains_key(id)
                        &&& members@.contains_key(id)
                        &&& states@[id]@ == known[id]
                    },
                forall|j: int|
                    0 <= j < i && known.contains_key(#[trigger] entries[j].0.key())
                        ==> states@.contains_key(entries[j].0.key()),
            decreases len - i,
        {
            let member_id = members.key_at(i);
            assert(members@.contains_key(entries[i as int].0.key()));
            if let Some(member_state) = self.cluster_state.member_state(member_id) {
                states.insert(member_id.clone(), member_state.clone());
            }
            i = i + 1;
        }
        proof {
            lemma_entries_map(entries);
            assert forall|id: MemberIdView|
                known.restrict(members@.dom()).contains_key(id) implies states@.contains_key(
                id,
            ) by {
                assert(members@.contains_key(id));
                let j = choose|j: int|
                    0 <= j < entries.len() && #[trigger] entries[j].0.key() == id;
                assert(known.contains_key(entries[j].0.key()));
            }
            assert(state_views(states@) =~= known.restrict(members@.dom()));
        }
        states
    }

    /// Drops members that were garbage collected.
    fn forget(&mut self, members: &Vec<MemberId>)
        requires
            old(self).cluster_state.wf(),
            old(self).failure_detector.wf(),
            old(self).previous_live_members.wf(),
            !id_views(members@).contains(old(self).config.member_id@),
        ensures
            final(self).cluster_state.wf(),
            final(self).failure_detector.wf(),
            final(self).previous_live_members.wf(),
            final(self)@ == (TchatcheView {
                states: old(self)@.states.remove_keys(id_views(members@).to_set()),
                ..old(self)@
            }),
    {
        let ghost before = self@;
        let ghost ids = id_views(members@);
        let len = members.len();
        let mut i: usize = 0;
        proof {
            assert(ids.take(0).to_set() =~= Set::<MemberIdView>::empty());
            assert(before.states.remove_keys(Set::empty()) =~= before.states);
        }
        while i < len
            invariant
                i <= len,
                len == members@.len(),
                ids == id_views(members@),
                self.ordered(),
                !ids.contains(before.self_id),
                self@ == (TchatcheView {
                    states: before.states.remove_keys(ids.take(i as int).to_set()),
                    ..before
                }),
            decreases len - i,
        {
            assert(ids[i as int] == members@[i as int]@);
            if !same_member(&members[i], &self.config.member_id) {
                self.cluster_state.remove_member(&members[i]);
            } else {
                assert(ids.contains(ids[i as int]));
            }
            proof {
                lemma_take_to_set(ids, i as int);
                assert(self@.states =~= before.states.remove_keys(ids.take(i + 1).to_set()));
            }
            i = i + 1;
        }
        assert(ids.take(len as int) =~= ids);
    }

    /// Updates each member's liveness, tells whether the live members changed, and garbage
    /// collects members that have been dead longer than the quarantine period. `available`
    /// holds the members whose silence is not suspicious at `now`.
    pub fn update_members_liveness(&mut self, available: &OrderedSet<MemberId>, now: Nanos) -> (update:
        LivenessUpdate)
        requires
            old(self).wf(),
            available.wf(),
        ensures
            final(self).wf(),
            final(self)@ == old(self)@.after_liveness(available@, now),
            update.live_members is None <==> old(self)@.previous_live == old(self)@.live_after(
                available@,
                now,
            ),
            update.live_members matches Some(live_members) ==> {
                &&& live_members.wf()
                &&& state_views(live_members@) == old(self)@.states.restrict(
                    old(self)@.live_after(available@, now).dom(),
                )
            },
            id_views(update.forgotten@).no_duplicates(),
            id_views(update.forgotten@).to_set() == old(self)@.forgotten_after(available@, now),
    {
        let ghost before = self@;
        self.judge_members(available, now);
        let ghost judged = self@.detector;
        let current_live_members = self.current_live_members();
        let live_members = if same_versions(&self.previous_live_members, &current_live_members) {
            None
        } else {
            Some(self.states_of(&current_live_members))
        };
        self.previous_live_members = current_live_members;
        let forgotten = self.failure_detector.garbage_collect(now, self.config.quarantine_period);
        let ghost ids = id_views(forgotten@);
        proof {
            assert(!ids.contains(before.self_id)) by {
                if ids.contains(before.self_id) {
                    assert(judged.collectible(now, before.quarantine_period, before.self_id));
                }
            }
            assert(ids.to_set() =~= before.forgotten_after(available@, now)) by {
                assert forall|id: MemberIdView|
                    ids.to_set().contains(id) <==> before.forgotten_after(
                        available@,
                        now,
                    ).contains(id) by {
                    assert(ids.contains(id) <==> judged.collectible(
                        now,
                        before.quarantine_period,
                        id,
                    ));
                }
            }
        }
        self.forget(&forgotten);
        proof {
            assert(self@ =~= before.after_liveness(available@, now));
            assert forall|id: MemberIdView| self@.detector.live.contains(
                id,
            ) implies self@.states.contains_key(id) by {
                assert(judged.live.contains(id));
            }
        }
        LivenessUpdate { live_members, forgotten }
    }

    /// The heartbeat arrivals noted since the last call.
    pub fn take_reported_heartbeats(&mut self) -> (reported: Vec<MemberId>)
        requires
            old(self).wf(),
        ensures
            final(self).wf(),
            id_views(reported@) == old(self)@.detector.reported,
            final(self)@ == (TchatcheView {
                detector: (FailureDetectorView {
                    reported: Seq::empty(),
                    ..old(self)@.detector
                }),
                ..old(self)@
            }),
    {
        self.failure_detector.take_reported_heartbeats()
    }

    /// Records a heartbeat arrival of a member, which was still available then or not.
    /// Returns what happened to the window of its intervals.
    pub fn record_heartbeat(&mut self, member_id: &MemberId, now: Nanos, available: bool) -> (steps:
        Vec<HistoryStep>)
        requires
            old(self).wf(),
        ensures
            final(self).wf(),
            final(self)@ == (TchatcheView {
                detector: old(self)@.detector.record(member_id@, now, available),
                ..old(self)@
            }),
            steps@ == old(self)@.detector.sample(member_id@).beat_steps(now, available),
    {
        self.failure_detector.record_heartbeat(member_id, now, available)
    }

    /// The arrivals of a member that was heard of.
    pub fn sample(&self, member_id: &MemberId) -> (sample: Option<&PhiAccrual>)
        requires
            self.wf(),
        ensures
            match sample {
                Some(sample) => self@.detector.samples.contains_key(member_id@) && sample@
                    == self@.detector.samples[member_id@],
                None => !self@.detector.samples.contains_key(member_id@),
            },
    {
        self.failure_detector.sample(member_id)
    }

    /// Takes over the addresses of the seeds.
    pub fn set_seed_addrs(&mut self, seed_addrs: OrderedSet<SocketAddr>)
        requires
            old(self).wf(),
            seed_addrs.wf(),
        ensures
            final(self).wf(),
            final(self)@ == (TchatcheView { seeds: seed_addrs@, ..old(self)@ }),
    {
        self.cluster_state.set_seed_addrs(seed_addrs);
    }

    // --- Public API ---

    /// This member's identity.
    pub fn self_id(&self) -> (id: &MemberId)
        ensures
            id@ == self@.self_id,
    {
        &self.config.member_id
    }

    pub fn cluster_id(&self) -> (id: &str)
        ensures
            id@ == self@.cluster_id,
    {
        self.config.cluster_id.as_str()
    }

    pub fn member_state(&self, member_id: &MemberId) -> (state: Option<&MemberState>)
        requires
            self.wf(),
        ensures
            match state {
                Some(state) => state.wf() && self@.states.contains_key(member_id@) && state@
                    == self@.states[member_id@],
                None => !self@.states.contains_key(member_id@),
            },
    {
        self.cluster_state.member_state(member_id)
    }

    pub fn member_states(&self) -> (member_states: &OrderedMap<MemberId, MemberState>)
        requires
            self.wf(),
        ensures
            member_states.wf(),
            state_views(member_states@) == self@.states,
            forall|id: MemberIdView| #[trigger]
                member_states@.contains_key(id) ==> member_states@[id].wf(),
    {
        self.cluster_state.member_states()
    }

    /// Members considered live, always including this member, which comes first.
    pub fn live_members(&self) -> (members: Vec<&MemberId>)
        requires
            self.wf(),
        ensures
            members@.len() > 0,
            members@[0]@ == self@.self_id,
            ref_views(members@).skip(1).to_set() == self@.detector.live,
            ascending_ids(ref_views(members@).skip(1)),
    {
        let live = self.failure_detector.live_members();
        let mut members: Vec<&MemberId> = Vec::new();
        members.push(&self.config.member_id);
        let len = live.len();
        let mut i: usize = 0;
        while i < len
            invariant
                i <= len,
                len == live@.len(),
                members@.len() == i + 1,
                members@[0]@ == self@.self_id,
                forall|j: int| 0 <= j < i ==> #[trigger] members@[j + 1] == live@[j],
            decreases len - i,
        {
            members.push(live[i]);
            i = i + 1;
        }
        assert(ref_views(members@).skip(1) =~= ref_views(live@)) by {
            assert forall|j: int| 0 <= j < len implies ref_views(members@).skip(1)[j]
                == #[trigger] ref_views(live@)[j] by {
                assert(members@[j + 1] == live@[j]);
            }
        }
        members
    }

    /// Members considered dead by the failure detector, in ascending order.
    pub fn dead_members(&self) -> (members: Vec<&MemberId>)
        requires
            self.wf(),
        ensures
            ref_views(members@).to_set() == self@.dead(),
            ascending_ids(ref_views(members@)),
    {
        self.failure_detector.dead_members()
    }

    /// The addresses of the seeds, as last taken over.
    pub fn seed_members(&self) -> (seed_addrs: OrderedSet<SocketAddr>)
        ensures
            seed_addrs.wf(),
            seed_addrs@ == self@.seeds,
    {
        self.cluster_state.seed_addrs()
    }

    pub fn cluster_state(&self) -> (cluster_state: &ClusterState)
        requires
            self.wf(),
        ensures
            cluster_state.wf(),
            cluster_state.states() == self@.states,
            cluster_state.seeds() == self@.seeds,
    {
        &self.cluster_state
    }
}

/// Whether two maps bind the same members to the same versions.
fn same_versions(a: &OrderedMap<MemberId, Version>, b: &OrderedMap<MemberId, Version>) -> (same:
    bool)
    requires
        a.wf(),
        b.wf(),
    ensures
        same == (a@ == b@),
{
    let ghost entries = a.entries();
    proof {
        lemma_entries_map(entries);
        lemma_entries_map(b.entries());
    }
    let len = a.len();
    if len != b.len() {
        return false;
    }
    let mut i: usize = 0;
    while i < len
        invariant
            i <= len,
            len == entries.len(),
            entries == a.entries(),
            b.wf(),
            forall|j: int|
                0 <= j < len ==> {
                    &&& a@.contains_key(#[trigger] entries[j].0.key())
                    &&& a@[entries[j].0.key()] == entries[j].1
                },
            forall|j: int|
                0 <= j < i ==> {
                    &&& b@.contains_key(#[trigger] entries[j].0.key())
                    &&& b@[entries[j].0.key()] == entries[j].1
                },
        decreases len - i,
    {
        assert(a@.contains_key(entries[i as int].0.key()));
        match b.get(a.key_at(i)) {
            Some(version) => {
                if *version != *a.value_at(i) {
                    return false;
                }
            },
            None => {
                return false;
            },
        }
        i = i + 1;
    }
    proof {
        lemma_entries_map(entries);
        assert forall|id: MemberIdView| #[trigger] a@.contains_key(id) implies b@.contains_key(id)
            && b@[id] == a@[id] by {
            let j = choose|j: int| 0 <= j < entries.len() && #[trigger] entries[j].0.key() == id;
            assert(b@.contains_key(entries[j].0.key()));
        }
        vstd::set_lib::lemma_subset_equality(a@.dom(), b@.dom());
        assert(a@ =~= b@);
    }
    true
}

/// What changed when the members were judged.
#[derive(Debug)]
pub struct LivenessUpdate {
    /// The live members, if they or their versions changed.
    pub live_members: Option<OrderedMap<MemberId, MemberState>>,
    /// The members that were forgotten.
    pub forgotten: Vec<MemberId>,
}

/// A strictly ascending list of members of a set, as long as the set, lists the set.
pub proof fn lemma_all_listed(ids: Seq<MemberIdView>, members: Set<MemberIdView>)
    requires
        members.finite(),
        ids.len() == members.len(),
        forall|i: int| 0 <= i < ids.len() ==> members.contains(#[trigger] ids[i]),
        ascending_ids(ids),
    ensures
        ids.to_set() == members,
        forall|id: MemberIdView| members.contains(id) ==> ids.contains(id),
{
    assert(ids.no_duplicates()) by {
        assert forall|i: int, j: int| 0 <= i < j < ids.len() implies ids[i] != ids[j] by {
            assert(MemberId::before(ids[i], ids[j]));
            MemberId::before_irreflexive(ids[i]);
        }
    }
    ids.unique_seq_to_set();
    assert(ids.to_set().subset_of(members));
    vstd::set_lib::lemma_subset_equality(ids.to_set(), members);
    assert forall|id: MemberIdView| members.contains(id) implies ids.contains(id) by {
        assert(ids.to_set().contains(id));
    }
}

/// After the heartbeats of some entries of a digest were heard.
spec fn heard_entries(
    before: TchatcheView,
    entries: Seq<(MemberId, MemberDigest)>,
    views: Seq<(MemberIdView, MemberDigest)>,
) -> TchatcheView {
    TchatcheView {
        states: heard(before.states, before.self_id, entries_map(entries)),
        detector: FailureDetectorView {
            reported: before.detector.reported + news(before.states, before.self_id, views),
            ..before.detector
        },
        ..before
    }
}

proof fn lemma_hear_step(
    before: TchatcheView,
    entries: Seq<(MemberId, MemberDigest)>,
    views: Seq<(MemberIdView, MemberDigest)>,
    i: int,
)
    requires
        ascending(entries),
        0 <= i < entries.len(),
        views.len() == entries.len(),
        views[i] == (entries[i].0@, entries[i].1),
    ensures
        heard_entries(before, entries.take(i), views.take(i)).hear(
            views[i].0,
            views[i].1.heartbeat,
        ) == heard_entries(before, entries.take(i + 1), views.take(i + 1)),
{
    let shorter = entries.take(i);
    let id = views[i].0;
    let current = heard_entries(before, shorter, views.take(i));
    let after = heard_entries(before, entries.take(i + 1), views.take(i + 1));
    assert(entries.take(i + 1).drop_last() =~= shorter);
    assert(views.take(i + 1).drop_last() =~= views.take(i));
    assert(ascending(shorter)) by {
        assert forall|j: int, k: int| 0 <= j < k < shorter.len() implies MemberId::before(
            #[trigger] shorter[j].0.key(),
            #[trigger] shorter[k].0.key(),
        ) by {
            assert(shorter[j] == entries[j]);
            assert(shorter[k] == entries[k]);
        }
    }
    lemma_entries_map(shorter);
    if entries_map(shorter).contains_key(id) {
        let j = choose|j: int| 0 <= j < shorter.len() && #[trigger] shorter[j].0.key() == id;
        assert(entries[j].0.key() == entries[i].0.key());
        lemma_key_at(entries, j, i);
    }
    let heartbeat = views[i].1.heartbeat;
    assert(entries_map(entries.take(i + 1)) == entries_map(shorter).insert(id, views[i].1));
    assert(current.hear(id, heartbeat).states =~= after.states);
    assert(current.hear(id, heartbeat).detector.reported =~= after.detector.reported);
}

pub proof fn lemma_take_to_set<T>(items: Seq<T>, i: int)
    requires
        0 <= i < items.len(),
    ensures
        items.take(i + 1).to_set() == items.take(i).to_set().insert(items[i]),
{
    let shorter = items.take(i);
    let longer = items.take(i + 1);
    assert forall|x: T| longer.to_set().contains(x) <==> shorter.to_set().insert(
        items[i],
    ).contains(x) by {
        if shorter.to_set().contains(x) {
            let k = choose|k: int| 0 <= k < shorter.len() && shorter[k] == x;
            assert(longer[k] == x);
        }
        if longer.to_set().contains(x) {
            let k = choose|k: int| 0 <= k < longer.len() && longer[k] == x;
            if k < i {
                assert(shorter[k] == x);
            }
        }
        if x == items[i] {
            assert(longer[i] == x);
        }
    }
    assert(longer.to_set() =~= shorter.to_set().insert(items[i]));
}

proof fn lemma_news(
    states: MemberStates,
    self_id: MemberIdView,
    entries: Seq<(MemberIdView, MemberDigest)>,
)
    requires
        forall|i: int, j: int|
            0 <= i < j < entries.len() ==> MemberId::before(
                (#[trigger] entries[i]).0,
                (#[trigger] entries[j]).0,
            ),
    ensures
        ascending_ids(news(states, self_id, entries)),
        forall|id: MemberIdView| #[trigger]
            news(states, self_id, entries).contains(id) <==> exists|i: int|
                {
                    &&& 0 <= i < entries.len()
                    &&& (#[trigger] entries[i]).0 == id
                    &&& id != self_id
                    &&& states.contains_key(id)
                    &&& 0 < states[id].heartbeat.0 < entries[i].1.heartbeat.0
                },
    decreases entries.len(),
{
    let list = news(states, self_id, entries);
    if entries.len() > 0 {
        let n = entries.len() - 1;
        let front = entries.drop_last();
        let earlier = news(states, self_id, front);
        assert forall|i: int, j: int| 0 <= i < j < front.len() implies MemberId::before(
            (#[trigger] front[i]).0,
            (#[trigger] front[j]).0,
        ) by {
            assert(front[i] == entries[i]);
            assert(front[j] == entries[j]);
        }
        lemma_news(states, self_id, front);
        let last = entries[n].0;
        let told = last != self_id && states.contains_key(last) && 0 < states[last].heartbeat.0
            < entries[n].1.heartbeat.0;
        assert(list == if told {
            earlier.push(last)
        } else {
            earlier
        });
        assert forall|i: int, j: int| 0 <= i < j < list.len() implies MemberId::before(
            #[trigger] list[i],
            #[trigger] list[j],
        ) by {
            assert(earlier[i] == list[i]);
            if j < earlier.len() {
                assert(earlier[j] == list[j]);
            } else {
                assert(earlier.contains(list[i]));
                let k = choose|k: int| 0 <= k < front.len() && (#[trigger] front[k]).0 == list[i];
                assert(entries[k].0 == list[i]);
            }
        }
        assert forall|id: MemberIdView| #[trigger] list.contains(id) <==> exists|i: int|
            {
                &&& 0 <= i < entries.len()
                &&& (#[trigger] entries[i]).0 == id
                &&& id != self_id
                &&& states.contains_key(id)
                &&& 0 < states[id].heartbeat.0 < entries[i].1.heartbeat.0
            } by {
            if list.contains(id) {
                let k = choose|k: int| 0 <= k < list.len() && list[k] == id;
                if k < earlier.len() {
                    assert(earlier[k] == id);
                    assert(earlier.contains(id));
                    let i = choose|i: int|
                        {
                            &&& 0 <= i < front.len()
                            &&& (#[trigger] front[i]).0 == id
                            &&& 0 < states[id].heartbeat.0 < front[i].1.heartbeat.0
                        };
                    assert(entries[i] == front[i]);
                } else {
                    assert(entries[n].0 == id);
                }
            }
            if exists|i: int|
                {
                    &&& 0 <= i < entries.len()
                    &&& (#[trigger] entries[i]).0 == id
                    &&& id != self_id
                    &&& states.contains_key(id)
                    &&& 0 < states[id].heartbeat.0 < entries[i].1.heartbeat.0
                } {
                let i = choose|i: int|
                    {
                        &&& 0 <= i < entries.len()
                        &&& (#[trigger] entries[i]).0 == id
                        &&& 0 < states[id].heartbeat.0 < entries[i].1.heartbeat.0
                    };
                if i < n {
                    assert(front[i] == entries[i]);
                    assert(earlier.contains(id));
                    let k = choose|k: int| 0 <= k < earlier.len() && earlier[k] == id;
                    assert(list[k] == id);
                } else {
                    assert(list[earlier.len() as int] == id);
                }
            }
        }
    }
}

/// The arrivals that a Syn or a SynAck of one's own cluster adds to those reported are, each
/// once and in ascending order, the other members of whom the digest has a later heartbeat
/// than the one known before, which was not zero. What else is held of a member is no matter.
pub proof fn law_later_heartbeats_are_reported(
    member: TchatcheView,
    message: Message,
    digest: Digest,
    id: MemberIdView,
)
    requires
        message.cluster_id@ == member.cluster_id,
        (message.kind matches MessageKind::Syn { digest: told } && told == digest) || (
        message.kind matches MessageKind::SynAck { digest: told, .. } && told == digest),
        digest.wf(),
    ensures
        ({
            let before = member.detector.reported;
            let after = member.receive(message).detector.reported;
            let added = after.skip(before.len() as int);
            &&& after.len() >= before.len()
            &&& after.take(before.len() as int) == before
            &&& added.no_duplicates()
            &&& ascending_ids(added)
            &&& added.contains(id) <==> {
                &&& id != member.self_id
                &&& member.states.contains_key(id)
                &&& digest@.contains_key(id)
                &&& 0 < member.states[id].heartbeat.0 < digest@[id].heartbeat.0
            }
        }),
{
    let states = member.bump().states;
    let entries = digest.member_digests.entries();
    let views = digest.entry_views();
    let before = member.detector.reported;
    let after = member.receive(message).detector.reported;
    let list = news(states, member.self_id, views);
    assert forall|i: int, j: int| 0 <= i < j < views.len() implies MemberId::before(
        (#[trigger] views[i]).0,
        (#[trigger] views[j]).0,
    ) by {
        assert(MemberId::before(entries[i].0.key(), entries[j].0.key()));
    }
    lemma_news(states, member.self_id, views);
    lemma_entries_map(entries);
    assert(after == before + list);
    assert(after.skip(before.len() as int) =~= list);
    assert(after.take(before.len() as int) =~= before);
    assert(list.no_duplicates()) by {
        assert forall|i: int, j: int| 0 <= i < j < list.len() implies list[i] != list[j] by {
            assert(MemberId::before(list[i], list[j]));
            MemberId::before_irreflexive(list[i]);
        }
    }
    if list.contains(id) {
        let i = choose|i: int|
            {
                &&& 0 <= i < views.len()
                &&& (#[trigger] views[i]).0 == id
                &&& 0 < states[id].heartbeat.0 < views[i].1.heartbeat.0
            };
        assert(digest@.contains_key(entries[i].0.key()));
    }
    if digest@.contains_key(id) {
        let i = choose|i: int| 0 <= i < entries.len() && #[trigger] entries[i].0.key() == id;
        assert(views[i].0 == id);
        assert(views[i].1 == digest@[id]);
    }
}

/// A Syn of one's own cluster bumps one's own heartbeat by one; teaches the members of its
/// digest that were unknown; and of the others known takes over the heartbeat where none was
/// known or an earlier one. It changes nothing else of any member.
pub proof fn law_syn_is_heard(
    member: TchatcheView,
    message: Message,
    digest: Digest,
    id: MemberIdView,
)
    requires
        member.states.contains_key(member.self_id),
        member.self_state().heartbeat.0 < u64::MAX,
        message.cluster_id@ == member.cluster_id,
        message.kind == (MessageKind::Syn { digest }),
    ensures
        ({
            let before = member.states;
            let after = member.receive(message).states;
            &&& after.contains_key(id) <==> before.contains_key(id) || digest@.contains_key(id)
            &&& before.contains_key(id) ==> {
                &&& after[id].member_id == before[id].member_id
                &&& after[id].key_values == before[id].key_values
                &&& after[id].max_version == before[id].max_version
            }
            &&& id == member.self_id ==> after[id].heartbeat.0 == before[id].heartbeat.0 + 1
            &&& id != member.self_id && before.contains_key(id) && !digest@.contains_key(id)
                ==> after[id].heartbeat.0 == before[id].heartbeat.0
            &&& id != member.self_id && before.contains_key(id) && digest@.contains_key(id) ==> {
                let told = digest@[id].heartbeat.0;
                let known = before[id].heartbeat.0;
                after[id].heartbeat.0 == if known == 0 || known < told {
                    told
                } else {
                    known
                }
            }
            &&& id != member.self_id && !before.contains_key(id) && digest@.contains_key(id) ==> {
                &&& after[id].member_id == id
                &&& after[id].heartbeat.0 == digest@[id].heartbeat.0
                &&& after[id].max_version == 0
                &&& forall|k: Seq<char>| !#[trigger] after[id].key_values.contains_key(k)
            }
        }),
{
}

/// A SynAck does what a Syn with its digest does, and then takes over what its delta brings of
/// the members known by then.
pub proof fn law_syn_ack_is_a_syn_and_a_delta(
    member: TchatcheView,
    syn: Message,
    syn_ack: Message,
    digest: Digest,
    delta: Delta,
)
    requires
        syn.cluster_id@ == member.cluster_id,
        syn_ack.cluster_id@ == member.cluster_id,
        syn.kind == (MessageKind::Syn { digest }),
        syn_ack.kind == (MessageKind::SynAck { digest, delta }),
    ensures
        member.receive(syn_ack) == (TchatcheView {
            states: apply_deltas(member.receive(syn).states, delta@),
            ..member.receive(syn)
        }),
{
}

/// An Ack of one's own cluster bumps one's own heartbeat by one, takes over what its delta
/// brings of the members known, and changes nothing else.
pub proof fn law_ack_is_a_delta(member: TchatcheView, message: Message, delta: Delta)
    requires
        member.states.contains_key(member.self_id),
        member.self_state().heartbeat.0 < u64::MAX,
        message.cluster_id@ == member.cluster_id,
        message.kind == (MessageKind::Ack { delta }),
    ensures
        exists|bumped: MemberStates|
            {
                &&& bumped.dom() == member.states.dom()
                &&& forall|id: MemberIdView| #[trigger]
                    member.states.contains_key(id) && id != member.self_id ==> bumped[id]
                        == member.states[id]
                &&& bumped[member.self_id].heartbeat.0 == member.self_state().heartbeat.0 + 1
                &&& bumped[member.self_id].member_id == member.self_state().member_id
                &&& bumped[member.self_id].key_values == member.self_state().key_values
                &&& bumped[member.self_id].max_version == member.self_state().max_version
                &&& member.receive(message) == (TchatcheView {
                    states: #[trigger] apply_deltas(bumped, delta@),
                    ..member
                })
            },
{
    let bumped = member.bump().states;
    assert(bumped.dom() =~= member.states.dom());
    assert(member.receive(message) == (TchatcheView {
        states: apply_deltas(bumped, delta@),
        ..member
    }));
}

/// Receiving a message leaves the identity, the cluster, the settings and the seeds alone, and
/// of the failure detector changes only the arrivals reported, which an Ack does not change
/// either.
pub proof fn law_receiving_judges_nobody(member: TchatcheView, message: Message)
    ensures
        ({
            let after = member.receive(message);
            &&& after.self_id == member.self_id
            &&& after.cluster_id == member.cluster_id
            &&& after.quarantine_period == member.quarantine_period
            &&& after.seeds == member.seeds
            &&& after.previous_live == member.previous_live
            &&& after.detector.max_sample_size == member.detector.max_sample_size
            &&& after.detector.samples == member.detector.samples
            &&& after.detector.live == member.detector.live
            &&& after.detector.dead == member.detector.dead
            &&& message.kind is Ack ==> after.detector.reported == member.detector.reported
        }),
{
}

/// A Syn, and so a digest that is answered, tells of each member that is known and not dead its
/// heartbeat and the version held, and of no other.
pub proof fn law_digests_tell_of_those_not_dead(member: TchatcheView, id: MemberIdView)
    ensures
        member.syn().cluster_id == member.cluster_id,
        member.syn().kind matches MessageKindView::Syn { digest } && {
            &&& digest.contains_key(id) <==> member.states.contains_key(id)
                && !member.detector.dead.contains_key(id)
            &&& digest.contains_key(id) ==> {
                &&& digest[id].heartbeat.0 == member.states[id].heartbeat.0
                &&& digest[id].max_version == member.states[id].max_version
            }
        },
{
}

/// A Syn of one's own cluster is answered with a SynAck: one's own digest, and a delta for what
/// the sender lacks that fills the room of a datagram that digest and framing leave.
pub proof fn law_syn_is_answered(
    member: TchatcheView,
    message: Message,
    digest: Digest,
    reply: Option<Message>,
    id: MemberIdView,
)
    requires
        message.cluster_id@ == member.cluster_id,
        message.kind == (MessageKind::Syn { digest }),
        member.replies(message, reply),
    ensures
        ({
            &&& reply matches Some(reply)
            &&& reply.cluster_id@ == member.cluster_id
            &&& reply.kind matches MessageKind::SynAck { digest: own, delta }
            &&& own@.contains_key(id) <==> member.states.contains_key(id)
                && !member.detector.dead.contains_key(id)
            &&& own@.contains_key(id) ==> {
                &&& own@[id].heartbeat.0 == member.states[id].heartbeat.0
                &&& own@[id].max_version == member.states[id].max_version
            }
            &&& exists|mtu: usize|
                {
                    let used = 4 + encode_str(member.cluster_id).len() + own.encoding().len();
                    &&& #[trigger] partial_delta_for(
                        member.states,
                        digest@,
                        member.detector.dead.dom(),
                        mtu,
                        delta@,
                    )
                    &&& used <= 65_507 ==> used + mtu == 65_507
                    &&& used > 65_507 ==> mtu == 0
                }
        }),
{
    let own = reply->Some_0.kind->SynAck_digest;
    let delta = reply->Some_0.kind->SynAck_delta;
    let mtu = room(member.header_len() + own.encoding().len());
    assert(partial_delta_for(member.states, digest@, member.detector.dead.dom(), mtu, delta@));
}

/// A SynAck of one's own cluster is answered with an Ack: a delta for what the sender lacks that
/// fills the room of a datagram that the framing leaves. An Ack is not answered.
pub proof fn law_syn_ack_is_answered(
    member: TchatcheView,
    message: Message,
    reply: Option<Message>,
)
    requires
        message.cluster_id@ == member.cluster_id,
        member.replies(message, reply),
    ensures
        message.kind matches MessageKind::SynAck { digest, delta: received } ==> {
            &&& reply matches Some(reply)
            &&& reply.cluster_id@ == member.cluster_id
            &&& reply.kind matches MessageKind::Ack { delta }
            &&& exists|mtu: usize|
                {
                    let used = 4 + encode_str(member.cluster_id).len();
                    &&& #[trigger] partial_delta_for(
                        member.states,
                        digest@,
                        member.detector.dead.dom(),
                        mtu,
                        delta@,
                    )
                    &&& used <= 65_507 ==> used + mtu == 65_507
                    &&& used > 65_507 ==> mtu == 0
                }
        },
        message.kind is Ack ==> reply is None,
{
    if let MessageKind::SynAck { digest, delta: received } = message.kind {
        let delta = reply->Some_0.kind->Ack_delta;
        let mtu = room(member.header_len());
        assert(partial_delta_for(member.states, digest@, member.detector.dead.dom(), mtu, delta@));
    }
}

/// When the members are judged, another member that is known is live afterwards exactly if it
/// is available and an arrival of it was recorded. Otherwise it is not live: it is dead, since
/// it died or from now on, or forgotten if it has been dead for longer than the quarantine
/// period, whoever else is live.
pub proof fn law_every_member_is_judged(
    member: TchatcheView,
    available: Set<MemberIdView>,
    now: Nanos,
    id: MemberIdView,
)
    requires
        member.valid(),
        member.states.contains_key(id),
        id != member.self_id,
    ensures
        ({
            let after = member.after_liveness(available, now);
            let alive = available.contains(id) && member.detector.samples.contains_key(id);
            let died = if member.detector.dead.contains_key(id) {
                member.detector.dead[id]
            } else {
                now
            };
            let over = !alive && died + member.quarantine_period < now;
            &&& after.detector.live.contains(id) <==> alive
            &&& after.detector.dead.contains_key(id) <==> !alive && !over
            &&& !alive && !over ==> after.detector.dead[id] == died
            &&& after.states.contains_key(id) <==> !over
            &&& !over ==> after.states[id] == member.states[id]
            &&& after.detector.samples.contains_key(id)
                <==> member.detector.samples.contains_key(id) && !over
            &&& !over && member.detector.samples.contains_key(id) ==> after.detector.samples[id]
                == member.detector.samples[id]
            &&& member.forgotten_after(available, now).contains(id) <==> over
            &&& member.live_after(available, now).contains_key(id) <==> alive
            &&& alive ==> member.live_after(available, now)[id] == member.states[id].max_version
            &&& after.previous_live.contains_key(id) <==> alive
            &&& alive ==> after.previous_live[id] == member.states[id].max_version
        }),
{
}

/// When the members are judged, oneself stays known and is neither live nor dead to one's own
/// failure detector, but counts among the live members; and nobody unknown becomes live, dead,
/// or forgotten.
pub proof fn law_oneself_is_not_judged(
    member: TchatcheView,
    available: Set<MemberIdView>,
    now: Nanos,
    id: MemberIdView,
)
    requires
        member.valid(),
        id == member.self_id || !member.states.contains_key(id),
    ensures
        ({
            let after = member.after_liveness(available, now);
            &&& !after.detector.live.contains(id)
            &&& !after.detector.dead.contains_key(id)
            &&& !member.forgotten_after(available, now).contains(id)
            &&& after.detector.samples.contains_key(id)
                <==> member.detector.samples.contains_key(id)
            &&& member.detector.samples.contains_key(id) ==> after.detector.samples[id]
                == member.detector.samples[id]
            &&& after.states.contains_key(id) <==> id == member.self_id
            &&& id == member.self_id ==> after.states[id] == member.states[id]
            &&& member.live_after(available, now).contains_key(id) <==> id == member.self_id
            &&& after.previous_live.contains_key(id) <==> id == member.self_id
            &&& id == member.self_id ==> {
                &&& member.live_after(available, now)[id] == member.states[id].max_version
                &&& after.previous_live[id] == member.states[id].max_version
            }
        }),
{
}

/// Judging the members leaves the identity, the cluster, the settings, the seeds, and the
/// arrivals reported alone.
pub proof fn law_judging_keeps_the_settings(
    member: TchatcheView,
    available: Set<MemberIdView>,
    now: Nanos,
)
    ensures
        ({
            let after = member.after_liveness(available, now);
            &&& after.self_id == member.self_id
            &&& after.cluster_id == member.cluster_id
            &&& after.quarantine_period == member.quarantine_period
            &&& after.seeds == member.seeds
            &&& after.detector.max_sample_size == member.detector.max_sample_size
            &&& after.detector.reported == member.detector.reported
        }),
{
}

/// Bumping one's own heartbeat adds one to it and changes nothing else.
pub proof fn law_bump_adds_one(member: TchatcheView, id: MemberIdView)
    requires
        member.states.contains_key(member.self_id),
        member.self_state().heartbeat.0 < u64::MAX,
    ensures
        ({
            let after = member.bump();
            &&& after.states.contains_key(id) <==> member.states.contains_key(id)
            &&& id != member.self_id && member.states.contains_key(id) ==> after.states[id]
                == member.states[id]
            &&& after.states[member.self_id].heartbeat.0 == member.states[member.self_id].heartbeat.0
                + 1
            &&& after.states[member.self_id].member_id == member.states[member.self_id].member_id
            &&& after.states[member.self_id].key_values == member.states[member.self_id].key_values
            &&& after.states[member.self_id].max_version
                == member.states[member.self_id].max_version
            &&& after.self_id == member.self_id
            &&& after.cluster_id == member.cluster_id
            &&& after.quarantine_period == member.quarantine_period
            &&& after.seeds == member.seeds
            &&& after.detector == member.detector
            &&& after.previous_live == member.previous_live
        }),
{
}

} // verus!
