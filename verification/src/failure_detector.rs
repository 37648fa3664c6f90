//! Who is alive: heartbeat arrivals, the live and dead members, and the quarantine.
//!
//! How surprising a silence is, given the arrivals seen, is a matter of floating point and
//! is computed by the caller, who passes in whether a member is still available.
use crate::order::OrderedKey;
use crate::ordered_map::{lemma_entries_map, OrderedMap};
use crate::ordered_set::OrderedSet;
use crate::types::{MemberId, MemberIdView};
use std::collections::VecDeque;
use vstd::prelude::*;

verus! {

/// A point in time or a span of it, in nanoseconds.
pub type Nanos = u128;

/// One inter-arrival interval.
#[derive(Debug, Clone, Copy, PartialEq, Eq, Structural)]
pub enum Interval {
    /// Three quarters of the estimated heartbeat interval.
    SeedLow,
    /// Five quarters of the estimated heartbeat interval.
    SeedHigh,
    /// An interval between two arrivals.
    Observed(Nanos),
}

/// What happened to a window of intervals.
#[derive(Debug, Clone, Copy, PartialEq, Eq, Structural)]
pub enum HistoryStep {
    /// All intervals were dropped.
    Cleared,
    /// The oldest interval was dropped.
    Evicted(Interval),
    /// An interval was added.
    Pushed(Interval),
}

/// A bounded window of inter-arrival intervals.
#[derive(Debug)]
pub struct HeartbeatHistory {
    max_sample_size: usize,
    intervals: VecDeque<Interval>,
}

/// A window after one more interval: a full one first drops its oldest.
pub open spec fn window_push(
    window: Seq<Interval>,
    max_sample_size: usize,
    interval: Interval,
) -> Seq<Interval> {
    if window.len() >= max_sample_size && window.len() > 0 {
        window.drop_first().push(interval)
    } else {
        window.push(interval)
    }
}

/// What happens to a window that gets one more interval.
pub open spec fn push_steps(
    window: Seq<Interval>,
    max_sample_size: usize,
    interval: Interval,
) -> Seq<HistoryStep> {
    if window.len() >= max_sample_size && window.len() > 0 {
        seq![HistoryStep::Evicted(window[0]), HistoryStep::Pushed(interval)]
    } else {
        seq![HistoryStep::Pushed(interval)]
    }
}

impl HeartbeatHistory {
    /// The intervals, the oldest first.
    pub closed spec fn view(&self) -> Seq<Interval> {
        self.intervals@
    }

    pub closed spec fn max_sample_size(&self) -> usize {
        self.max_sample_size
    }

    pub fn new(max_sample_size: usize) -> (history: Self)
        ensures
            history@ == Seq::<Interval>::empty(),
            history.max_sample_size() == max_sample_size,
    {
        HeartbeatHistory { max_sample_size, intervals: VecDeque::new() }
    }

    /// The number of intervals.
    pub fn len(&self) -> (len: usize)
        ensures
            len == self@.len(),
    {
        self.intervals.len()
    }

    /// Adds an interval, and appends what that did to `steps`.
    pub fn push(&mut self, interval: Interval, steps: &mut Vec<HistoryStep>)
        ensures
            final(self).max_sample_size() == old(self).max_sample_size(),
            final(self)@ == window_push(old(self)@, old(self).max_sample_size(), interval),
            final(steps)@ == old(steps)@ + push_steps(
                old(self)@,
                old(self).max_sample_size(),
                interval,
            ),
    {
        let ghost window = self@;
        let ghost before = steps@;
        if self.intervals.len() >= self.max_sample_size {
            if let Some(oldest) = self.intervals.pop_front() {
                assert(self@ =~= window.drop_first());
                steps.push(HistoryStep::Evicted(oldest));
            }
        }
        self.intervals.push_back(interval);
        steps.push(HistoryStep::Pushed(interval));
        assert(steps@ =~= before + push_steps(window, self.max_sample_size, interval));
    }
}

/// Per-member arrivals.
#[derive(Debug)]
pub struct PhiAccrual {
    history: HeartbeatHistory,
    last_timestamp: Option<Nanos>,
}

/// What a [`PhiAccrual`] stands for.
#[verifier::ext_equal]
pub struct PhiAccrualView {
    pub max_sample_size: usize,
    pub window: Seq<Interval>,
    pub last_timestamp: Option<Nanos>,
}

/// The time from `earlier` to `later`; none has passed if `later` comes first.
pub open spec fn elapsed(earlier: Nanos, later: Nanos) -> Nanos {
    if later >= earlier {
        (later - earlier) as Nanos
    } else {
        0
    }
}

impl PhiAccrualView {
    /// A member that was never heard of.
    pub open spec fn silent(max_sample_size: usize) -> PhiAccrualView {
        PhiAccrualView { max_sample_size, window: Seq::empty(), last_timestamp: None }
    }

    /// The window that makes the first silence measurable.
    pub open spec fn seeded(self) -> Seq<Interval> {
        window_push(
            window_push(Seq::empty(), self.max_sample_size, Interval::SeedLow),
            self.max_sample_size,
            Interval::SeedHigh,
        )
    }

    /// The arrivals after one more heartbeat. The first one seeds the window; a later one
    /// adds an interval only while the member is available, so that the pause of a failure
    /// does not skew the statistics.
    pub open spec fn beat(self, now: Nanos, available: bool) -> PhiAccrualView {
        PhiAccrualView {
            window: match self.last_timestamp {
                None => self.seeded(),
                Some(last) => if available {
                    window_push(
                        self.window,
                        self.max_sample_size,
                        Interval::Observed(elapsed(last, now)),
                    )
                } else {
                    self.window
                },
            },
            last_timestamp: Some(now),
            ..self
        }
    }

    /// What a heartbeat does to the window.
    pub open spec fn beat_steps(self, now: Nanos, available: bool) -> Seq<HistoryStep> {
        match self.last_timestamp {
            None => seq![HistoryStep::Cleared] + push_steps(
                Seq::empty(),
                self.max_sample_size,
                Interval::SeedLow,
            ) + push_steps(
                window_push(Seq::empty(), self.max_sample_size, Interval::SeedLow),
                self.max_sample_size,
                Interval::SeedHigh,
            ),
            Some(last) => if available {
                push_steps(
                    self.window,
                    self.max_sample_size,
                    Interval::Observed(elapsed(last, now)),
                )
            } else {
                Seq::empty()
            },
        }
    }
}

impl View for PhiAccrual {
    type V = PhiAccrualView;

    closed spec fn view(&self) -> PhiAccrualView {
        PhiAccrualView {
            max_sample_size: self.history.max_sample_size(),
            window: self.history@,
            last_timestamp: self.last_timestamp,
        }
    }
}

impl PhiAccrual {
    pub fn new(max_sample_size: usize) -> (arrivals: Self)
        ensures
            arrivals@ == PhiAccrualView::silent(max_sample_size),
    {
        PhiAccrual { history: HeartbeatHistory::new(max_sample_size), last_timestamp: None }
    }

    /// The number of intervals in the window.
    pub fn sample_size(&self) -> (len: usize)
        ensures
            len == self@.window.len(),
    {
        self.history.len()
    }

    /// When the last heartbeat arrived.
    pub fn last_timestamp(&self) -> (last: Option<Nanos>)
        ensures
            last == self@.last_timestamp,
    {
        self.last_timestamp
    }

    /// Seeds the history with two entries (the estimated interval less and plus a quarter)
    /// so that the first silence is measurable before real intervals are observed.
    fn seed_first_heartbeat(&mut self, steps: &mut Vec<HistoryStep>)
        ensures
            final(self)@ == (PhiAccrualView { window: old(self)@.seeded(), ..old(self)@ }),
            final(steps)@ == old(steps)@ + (seq![HistoryStep::Cleared] + push_steps(
                Seq::empty(),
                old(self)@.max_sample_size,
                Interval::SeedLow,
            ) + push_steps(
                window_push(Seq::empty(), old(self)@.max_sample_size, Interval::SeedLow),
                old(self)@.max_sample_size,
                Interval::SeedHigh,
            )),
    {
        let ghost before = steps@;
        let max_sample_size = self.history.max_sample_size;
        let mut history = HeartbeatHistory::new(max_sample_size);
        steps.push(HistoryStep::Cleared);
        history.push(Interval::SeedLow, steps);
        history.push(Interval::SeedHigh, steps);
        self.history = history;
        assert(steps@ =~= before + (seq![HistoryStep::Cleared] + push_steps(
            Seq::empty(),
            max_sample_size,
            Interval::SeedLow,
        ) + push_steps(
            window_push(Seq::empty(), max_sample_size, Interval::SeedLow),
            max_sample_size,
            Interval::SeedHigh,
        )));
    }

    /// Records a heartbeat that arrives at `now`. `available` says whether the member was
    /// still available then. Returns what happened to the window.
    pub fn heartbeat(&mut self, now: Nanos, available: bool) -> (steps: Vec<HistoryStep>)
        ensures
            final(self)@ == old(self)@.beat(now, available),
            steps@ == old(self)@.beat_steps(now, available),
    {
        let mut steps: Vec<HistoryStep> = Vec::new();
        let ghost expected = self@.beat_steps(now, available);
        match self.last_timestamp {
            None => {
                self.seed_first_heartbeat(&mut steps);
            },
            Some(last_timestamp) => {
                // Don't record the first interval after a failure: a long pause would skew
                // the statistics. Only record while still available.
                if available {
                    let interval: Nanos = now.saturating_sub(last_timestamp);
                    self.history.push(Interval::Observed(interval), &mut steps);
                }
            },
        }
        self.last_timestamp = Some(now);
        assert(steps@ =~= expected);
        steps
    }
}

/// A failure detector: one [`PhiAccrual`] per monitored member, the live and dead members,
/// and the garbage collection on top.
#[derive(Debug)]
pub struct FailureDetector {
    max_sample_size: usize,
    member_samples: OrderedMap<MemberId, PhiAccrual>,
    reported: Vec<MemberId>,
    live_members: OrderedSet<MemberId>,
    dead_members: OrderedMap<MemberId, Nanos>,
}

/// What a [`FailureDetector`] stands for.
#[verifier::ext_equal]
pub struct FailureDetectorView {
    pub max_sample_size: usize,
    /// The arrivals of each member that was heard of.
    pub samples: Map<MemberIdView, PhiAccrualView>,
    /// The heartbeats reported and not yet recorded, the oldest first.
    pub reported: Seq<MemberIdView>,
    /// The live members.
    pub live: Set<MemberIdView>,
    /// The dead members, with the times of their deaths.
    pub dead: Map<MemberIdView, Nanos>,
}

impl FailureDetectorView {
    /// No member is both live and dead.
    pub open spec fn valid(self) -> bool {
        &&& self.live.finite()
        &&& self.dead.dom().finite()
        &&& forall|id: MemberIdView| #[trigger]
            self.live.contains(id) ==> !self.dead.contains_key(id)
    }

    /// The arrivals of a member.
    pub open spec fn sample(self, id: MemberIdView) -> PhiAccrualView {
        if self.samples.contains_key(id) {
            self.samples[id]
        } else {
            PhiAccrualView::silent(self.max_sample_size)
        }
    }

    /// After a heartbeat was recorded.
    pub open spec fn record(self, id: MemberIdView, now: Nanos, available: bool) -> FailureDetectorView {
        FailureDetectorView {
            samples: self.samples.insert(id, self.sample(id).beat(now, available)),
            ..self
        }
    }

    /// After a member was judged. A member with no samples yet is treated as not (yet)
    /// available; a member that stays dead keeps its time of death.
    pub open spec fn judge(self, id: MemberIdView, available: bool, now: Nanos) -> FailureDetectorView {
        if available && self.samples.contains_key(id) {
            FailureDetectorView {
                live: self.live.insert(id),
                dead: self.dead.remove(id),
                ..self
            }
        } else {
            FailureDetectorView {
                live: self.live.remove(id),
                dead: if self.dead.contains_key(id) {
                    self.dead
                } else {
                    self.dead.insert(id, now)
                },
                ..self
            }
        }
    }

    /// After several members were judged.
    pub open spec fn judge_all(
        self,
        ids: Set<MemberIdView>,
        available: Set<MemberIdView>,
        now: Nanos,
    ) -> FailureDetectorView {
        let alive = |id: MemberIdView| available.contains(id) && self.samples.contains_key(id);
        FailureDetectorView {
            live: Set::new(
                |id: MemberIdView|
                    if ids.contains(id) {
                        alive(id)
                    } else {
                        self.live.contains(id)
                    },
            ),
            dead: Map::new(
                |id: MemberIdView|
                    if ids.contains(id) {
                        !alive(id)
                    } else {
                        self.dead.contains_key(id)
                    },
                |id: MemberIdView|
                    if self.dead.contains_key(id) {
                        self.dead[id]
                    } else {
                        now
                    },
            ),
            ..self
        }
    }

    /// The members that have been dead longer than the quarantine period.
    pub open spec fn collectible(self, now: Nanos, quarantine_period: Nanos, id: MemberIdView) -> bool {
        self.dead.contains_key(id) && self.dead[id] + quarantine_period < now
    }

    /// After the collectible members were dropped.
    pub open spec fn collect(self, now: Nanos, quarantine_period: Nanos) -> FailureDetectorView {
        FailureDetectorView {
            samples: self.samples.remove_keys(self.collected(now, quarantine_period)),
            dead: self.dead.remove_keys(self.collected(now, quarantine_period)),
            ..self
        }
    }

    /// The collectible members.
    pub open spec fn collected(self, now: Nanos, quarantine_period: Nanos) -> Set<MemberIdView> {
        Set::new(|id: MemberIdView| self.collectible(now, quarantine_period, id))
    }
}

/// What a list of identities stands for.
pub open spec fn id_views(ids: Seq<MemberId>) -> Seq<MemberIdView> {
    ids.map_values(|id: MemberId| id@)
}

/// What a map of arrivals stands for.
pub open spec fn sample_views(samples: Map<MemberIdView, PhiAccrual>) -> Map<
    MemberIdView,
    PhiAccrualView,
> {
    samples.map_values(|sample: PhiAccrual| sample@)
}

impl View for FailureDetector {
    type V = FailureDetectorView;

    closed spec fn view(&self) -> FailureDetectorView {
        FailureDetectorView {
            max_sample_size: self.max_sample_size,
            samples: sample_views(self.member_samples@),
            reported: id_views(self.reported@),
            live: self.live_members@,
            dead: self.dead_members@,
        }
    }
}

impl FailureDetector {
    /// Members are kept in order.
    pub closed spec fn ordered(&self) -> bool {
        self.member_samples.wf() && self.live_members.wf() && self.dead_members.wf()
    }

    pub open spec fn wf(&self) -> bool {
        self.ordered() && self@.valid()
    }

    pub fn new(max_sample_size: usize) -> (detector: Self)
        ensures
            detector.wf(),
            detector@ == (FailureDetectorView {
                max_sample_size,
                samples: Map::empty(),
                reported: Seq::empty(),
                live: Set::empty(),
                dead: Map::empty(),
            }),
    {
        let detector = FailureDetector {
            max_sample_size,
            member_samples: OrderedMap::new(),
            reported: Vec::new(),
            live_members: OrderedSet::new(),
            dead_members: OrderedMap::new(),
        };
        assert(detector@.samples =~= Map::empty());
        assert(detector@.reported =~= Seq::empty());
        detector
    }

    /// Notes a heartbeat arrival of a member.
    pub fn report_heartbeat(&mut self, member_id: &MemberId)
        requires
            old(self).wf(),
        ensures
            final(self).wf(),
            final(self)@ == (FailureDetectorView {
                reported: old(self)@.reported.push(member_id@),
                ..old(self)@
            }),
    {
        let ghost before = self@;
        self.reported.push(member_id.clone());
        assert(self@.reported =~= before.reported.push(member_id@));
    }

    /// The heartbeat arrivals noted since the last call.
    pub fn take_reported_heartbeats(&mut self) -> (reported: Vec<MemberId>)
        requires
            old(self).wf(),
        ensures
            final(self).wf(),
            id_views(reported@) == old(self)@.reported,
            final(self)@ == (FailureDetectorView { reported: Seq::empty(), ..old(self)@ }),
    {
        let mut reported: Vec<MemberId> = Vec::new();
        std::mem::swap(&mut self.reported, &mut reported);
        assert(self@.reported =~= Seq::empty());
        reported
    }

    /// Records a heartbeat arrival of a member, which was still available then or not.
    /// Returns what happened to the window of its intervals.
    pub fn record_heartbeat(&mut self, member_id: &MemberId, now: Nanos, available: bool) -> (steps:
        Vec<HistoryStep>)
        requires
            old(self).wf(),
        ensures
            final(self).wf(),
            final(self)@ == old(self)@.record(member_id@, now, available),
            steps@ == old(self)@.sample(member_id@).beat_steps(now, available),
    {
        let ghost before = self@;
        let ghost id = member_id@;
        if !self.member_samples.contains_key(member_id) {
            self.member_samples.insert(member_id.clone(), PhiAccrual::new(self.max_sample_size));
        }
        let ghost held = self.member_samples@;
        proof {
            assert(held.contains_key(id));
            assert(held[id]@ == before.sample(id));
            assert forall|new: PhiAccrual| #[trigger]
                sample_views(held.insert(id, new)) == before.samples.insert(id, new@) by {
                assert(sample_views(held.insert(id, new)) =~= before.samples.insert(id, new@));
            }
        }
        let sample = self.member_samples.get_mut(member_id).unwrap();
        sample.heartbeat(now, available)
    }

    /// The arrivals of a member that was heard of.
    pub fn sample(&self, member_id: &MemberId) -> (sample: Option<&PhiAccrual>)
        requires
            self.wf(),
        ensures
            match sample {
                Some(sample) => self@.samples.contains_key(member_id@) && sample@
                    == self@.samples[member_id@],
                None => !self@.samples.contains_key(member_id@),
            },
    {
        self.member_samples.get(member_id)
    }

    /// Marks the member live or dead. A member with no samples yet is treated as not (yet)
    /// available.
    pub fn update_member_liveness(&mut self, member_id: &MemberId, available: bool, now: Nanos)
        requires
            old(self).wf(),
        ensures
            final(self).wf(),
            final(self)@ == old(self)@.judge(member_id@, available, now),
            final(self)@.live.contains(member_id@) <==> available && old(
                self,
            )@.samples.contains_key(member_id@),
            final(self)@.dead.contains_key(member_id@) <==> !(available && old(
                self,
            )@.samples.contains_key(member_id@)),
    {
        let is_alive = available && self.member_samples.contains_key(member_id);
        if is_alive {
            self.live_members.insert(member_id.clone());
            self.dead_members.remove(member_id);
        } else {
            self.live_members.remove(member_id);
            if !self.dead_members.contains_key(member_id) {
                self.dead_members.insert(member_id.clone(), now);
            }
            // We deliberately do NOT reset the sample's history here: the (huge)
            // post-failure interval is simply not recorded — see `PhiAccrual::heartbeat` —
            // so a revival self-corrects without a reset.
        }
    }

    /// Removes and returns the members dead longer than `quarantine_period`.
    pub fn garbage_collect(&mut self, now: Nanos, quarantine_period: Nanos) -> (collected: Vec<
        MemberId,
    >)
        requires
            old(self).wf(),
        ensures
            final(self).wf(),
            final(self)@ == old(self)@.collect(now, quarantine_period),
            id_views(collected@).no_duplicates(),
            forall|id: MemberIdView| #[trigger]
                id_views(collected@).contains(id) <==> old(self)@.collectible(
                    now,
                    quarantine_period,
                    id,
                ),
            forall|id: MemberIdView| #[trigger]
                id_views(collected@).contains(id) <==> old(self)@.dead.contains_key(id) && old(
                    self,
                )@.dead[id] + quarantine_period < now,
    {
        let ghost before = self@;
        let ghost entries = self.dead_members.entries();
        proof {
            lemma_entries_map(entries);
        }
        let mut collected: Vec<MemberId> = Vec::new();
        let len = self.dead_members.len();
        let mut i: usize = 0;
        while i < len
            invariant
                i <= len,
                len == entries.len(),
                self.wf(),
                self@ == before,
                entries == self.dead_members.entries(),
                forall|j: int|
                    0 <= j < entries.len() ==> {
                        &&& before.dead.contains_key(#[trigger] entries[j].0.key())
                        &&& before.dead[entries[j].0.key()] == entries[j].1
                    },
                forall|m: int|
                    0 <= m < collected@.len() ==> {
                        &&& before.collectible(
                            now,
                            quarantine_period,
                            (#[trigger] collected@[m])@,
                        )
                        &&& i < len ==> MemberId::before(
                            collected@[m]@,
                            entries[i as int].0.key(),
                        )
                    },
                forall|m: int, n: int|
                    0 <= m < n < collected@.len() ==> MemberId::before(
                        (#[trigger] collected@[m])@,
                        (#[trigger] collected@[n])@,
                    ),
                forall|j: int|
                    0 <= j < i && before.collectible(
                        now,
                        quarantine_period,
                        #[trigger] entries[j].0.key(),
                    ) ==> exists|m: int|
                        0 <= m < collected@.len() && (#[trigger] collected@[m])@
                            == entries[j].0.key(),
            decreases len - i,
        {
            let ghost earlier = collected@;
            let time_of_death: Nanos = *self.dead_members.value_at(i);
            let ghost id = entries[i as int].0.key();
            assert(before.dead.contains_key(entries[i as int].0.key()));
            if now >= time_of_death && now - time_of_death > quarantine_period {
                collected.push(self.dead_members.key_at(i).clone());
                assert(collected@[earlier.len() as int]@ == id);
            }
            proof {
                assert forall|j: int|
                    0 <= j < i + 1 && before.collectible(
                        now,
                        quarantine_period,
                        #[trigger] entries[j].0.key(),
                    ) implies exists|m: int|
                    0 <= m < collected@.len() && (#[trigger] collected@[m])@
                        == entries[j].0.key() by {
                    if j < i {
                        let m = choose|m: int|
                            0 <= m < earlier.len() && (#[trigger] earlier[m])@
                                == entries[j].0.key();
                        assert(collected@[m]@ == entries[j].0.key());
                    }
                }
                if i + 1 < len {
                    assert(MemberId::before(id, entries[i + 1].0.key()));
                    assert forall|m: int| 0 <= m < collected@.len() implies MemberId::before(
                        (#[trigger] collected@[m])@,
                        entries[i + 1].0.key(),
                    ) by {
                        if m < earlier.len() {
                            assert(collected@[m] == earlier[m]);
                            MemberId::before_transitive(
                                collected@[m]@,
                                id,
                                entries[i + 1].0.key(),
                            );
                        }
                    }
                }
            }
            i = i + 1;
        }
        let ghost ids = id_views(collected@);
        proof {
            lemma_entries_map(entries);
            assert forall|id: MemberIdView| #[trigger] ids.contains(id) <==> before.collectible(
                now,
                quarantine_period,
                id,
            ) by {
                if ids.contains(id) {
                    let m = choose|m: int| 0 <= m < ids.len() && ids[m] == id;
                    assert(collected@[m]@ == id);
                }
                if before.collectible(now, quarantine_period, id) {
                    let j = choose|j: int|
                        0 <= j < entries.len() && #[trigger] entries[j].0.key() == id;
                    assert(before.collectible(now, quarantine_period, entries[j].0.key()));
                    let m = choose|m: int|
                        0 <= m < collected@.len() && (#[trigger] collected@[m])@ == id;
                    assert(ids[m] == id);
                }
            }
            assert(ids.no_duplicates()) by {
                assert forall|m: int, n: int| 0 <= m < n < ids.len() implies ids[m] != ids[n] by {
                    assert(MemberId::before(collected@[m]@, collected@[n]@));
                    MemberId::before_irreflexive(ids[m]);
                }
            }
        }
        let count = collected.len();
        let mut i: usize = 0;
        while i < count
            invariant
                i <= count,
                count == collected@.len(),
                ids == id_views(collected@),
                before.valid(),
                self.ordered(),
                self@.max_sample_size == before.max_sample_size,
                self@.reported == before.reported,
                self@.live == before.live,
                self@.dead == before.dead.remove_keys(ids.take(i as int).to_set()),
                self@.samples == before.samples.remove_keys(ids.take(i as int).to_set()),
            decreases count - i,
        {
            let ghost current = self@;
            let ghost dropped = ids.take(i as int).to_set();
            let ghost id = ids[i as int];
            self.dead_members.remove(&collected[i]);
            self.member_samples.remove(&collected[i]);
            proof {
                assert(id == collected@[i as int]@);
                let now_dropped = ids.take(i + 1).to_set();
                assert(now_dropped =~= dropped.insert(id)) by {
                    assert(ids.take(i + 1) =~= ids.take(i as int).push(id));
                    assert forall|x: MemberIdView| now_dropped.contains(x) <==> dropped.insert(
                        id,
                    ).contains(x) by {
                        if dropped.contains(x) {
                            let k = choose|k: int|
                                0 <= k < ids.take(i as int).len() && ids.take(i as int)[k] == x;
                            assert(ids.take(i + 1)[k] == x);
                        }
                        if x == id {
                            assert(ids.take(i + 1)[i as int] == x);
                        }
                    }
                }
                assert(self@.samples =~= current.samples.remove(id));
                assert(self@.dead =~= before.dead.remove_keys(now_dropped));
                assert(self@.samples =~= before.samples.remove_keys(now_dropped));
            }
            i = i + 1;
        }
        proof {
            assert(ids.take(count as int) =~= ids);
            lemma_entries_map(self.dead_members.entries());
            assert(ids.to_set() =~= before.collected(now, quarantine_period)) by {
                assert forall|id: MemberIdView| ids.to_set().contains(id) <==> before.collected(
                    now,
                    quarantine_period,
                ).contains(id) by {
                    assert(ids.contains(id) <==> before.collectible(now, quarantine_period, id));
                }
            }
        }
        collected
    }

    /// The live members, in ascending order.
    pub fn live_members(&self) -> (members: Vec<&MemberId>)
        requires
            self.wf(),
        ensures
            ref_views(members@).to_set() == self@.live,
            ascending_ids(ref_views(members@)),
    {
        let mut members: Vec<&MemberId> = Vec::new();
        let len = self.live_members.len();
        let mut i: usize = 0;
        proof {
            self.live_members.lemma_items();
        }
        while i < len
            invariant
                i <= len,
                len == self.live_members.items().len(),
                members@.len() == i,
                forall|j: int| 0 <= j < i ==> *(#[trigger] members@[j]) == self.live_members.items()[j],
            decreases len - i,
        {
            members.push(self.live_members.item_at(i));
            i = i + 1;
        }
        proof {
            let items = self.live_members.items();
            let ids = ref_views(members@);
            assert forall|j: int| 0 <= j < ids.len() implies #[trigger] ids[j] == items[j].key() by {
                assert(*members@[j] == items[j]);
            }
            assert(ids.to_set() =~= self@.live) by {
                assert forall|id: MemberIdView| ids.to_set().contains(id) <==> self@.live.contains(
                    id,
                ) by {
                    if ids.to_set().contains(id) {
                        let j = choose|j: int| 0 <= j < ids.len() && ids[j] == id;
                        assert(self.live_members@.contains(items[j].key()));
                    }
                    if self@.live.contains(id) {
                        assert(self.live_members@.contains(id));
                        let j = choose|j: int|
                            0 <= j < items.len() && #[trigger] items[j].key() == id;
                        assert(ids[j] == id);
                    }
                }
            }
            assert(ascending_ids(ids)) by {
                assert forall|i: int, j: int| 0 <= i < j < ids.len() implies MemberId::before(
                    #[trigger] ids[i],
                    #[trigger] ids[j],
                ) by {
                    assert(MemberId::before(items[i].key(), items[j].key()));
                }
            }
        }
        members
    }

    /// The dead members, in ascending order.
    pub fn dead_members(&self) -> (members: Vec<&MemberId>)
        requires
            self.wf(),
        ensures
            ref_views(members@).to_set() == self@.dead.dom(),
            ascending_ids(ref_views(members@)),
    {
        let ghost entries = self.dead_members.entries();
        let mut members: Vec<&MemberId> = Vec::new();
        let len = self.dead_members.len();
        let mut i: usize = 0;
        while i < len
            invariant
                i <= len,
                len == entries.len(),
                entries == self.dead_members.entries(),
                members@.len() == i,
                forall|j: int| 0 <= j < i ==> *(#[trigger] members@[j]) == entries[j].0,
            decreases len - i,
        {
            members.push(self.dead_members.key_at(i));
            i = i + 1;
        }
        proof {
            lemma_entries_map(entries);
            let ids = ref_views(members@);
            assert forall|j: int| 0 <= j < ids.len() implies #[trigger] ids[j]
                == entries[j].0.key() by {
                assert(*members@[j] == entries[j].0);
            }
            assert(ids.to_set() =~= self@.dead.dom()) by {
                assert forall|id: MemberIdView|
                    ids.to_set().contains(id) <==> self@.dead.dom().contains(id) by {
                    if ids.to_set().contains(id) {
                        let j = choose|j: int| 0 <= j < ids.len() && ids[j] == id;
                        assert(self.dead_members@.contains_key(entries[j].0.key()));
                    }
                    if self@.dead.contains_key(id) {
                        assert(self.dead_members@.contains_key(id));
                        let j = choose|j: int|
                            0 <= j < entries.len() && #[trigger] entries[j].0.key() == id;
                        assert(ids[j] == id);
                    }
                }
            }
            assert(ascending_ids(ids)) by {
                assert forall|i: int, j: int| 0 <= i < j < ids.len() implies MemberId::before(
                    #[trigger] ids[i],
                    #[trigger] ids[j],
                ) by {
                    assert(MemberId::before(entries[i].0.key(), entries[j].0.key()));
                }
            }
        }
        members
    }
}

/// What a list of references to identities stands for.
pub open spec fn ref_views(ids: Seq<&MemberId>) -> Seq<MemberIdView> {
    ids.map_values(|id: &MemberId| id@)
}

/// Identities in strictly ascending order.
pub open spec fn ascending_ids(ids: Seq<MemberIdView>) -> bool {
    forall|i: int, j: int|
        0 <= i < j < ids.len() ==> MemberId::before(#[trigger] ids[i], #[trigger] ids[j])
}

// ---------------------------------------------------------------------------
// Laws

/// The window never holds more intervals than its bound, or one if the bound is zero.
pub proof fn law_window_is_bounded(sample: PhiAccrualView, now: Nanos, available: bool)
    requires
        sample.window.len() <= sample.max_sample_size || sample.window.len() <= 1,
    ensures
        ({
            let after = sample.beat(now, available);
            &&& after.max_sample_size == sample.max_sample_size
            &&& after.window.len() <= sample.max_sample_size || after.window.len() <= 1
        }),
{
}

/// The interval that ends a failure is not recorded, but the arrival is.
pub proof fn law_pause_of_a_failure_is_not_recorded(sample: PhiAccrualView, now: Nanos)
    requires
        sample.last_timestamp is Some,
    ensures
        sample.beat(now, false).window == sample.window,
        sample.beat(now, false).last_timestamp == Some(now),
{
}

/// A member that was judged is either live or dead, and the others stay what they were.
pub proof fn law_judged_member_is_live_or_dead(
    detector: FailureDetectorView,
    id: MemberIdView,
    available: bool,
    now: Nanos,
    other: MemberIdView,
)
    requires
        detector.valid(),
    ensures
        detector.judge(id, available, now).valid(),
        detector.judge(id, available, now).live.contains(id) <==> available
            && detector.samples.contains_key(id),
        detector.judge(id, available, now).dead.contains_key(id) <==> !(available
            && detector.samples.contains_key(id)),
        other != id ==> (detector.judge(id, available, now).live.contains(other)
            <==> detector.live.contains(other)) && (detector.judge(
            id,
            available,
            now,
        ).dead.contains_key(other) <==> detector.dead.contains_key(other)),
{
}

/// A member that stays dead keeps its time of death, so its quarantine is not prolonged.
pub proof fn law_time_of_death_is_kept(
    detector: FailureDetectorView,
    id: MemberIdView,
    now: Nanos,
)
    requires
        detector.dead.contains_key(id),
    ensures
        detector.judge(id, false, now).dead[id] == detector.dead[id],
{
}

/// A member is not forgotten before the quarantine period is over, and no member that is not
/// dead ever is.
pub proof fn law_quarantine_is_kept(
    detector: FailureDetectorView,
    now: Nanos,
    quarantine_period: Nanos,
    id: MemberIdView,
)
    requires
        !detector.dead.contains_key(id) || now <= detector.dead[id] + quarantine_period,
    ensures
        !detector.collectible(now, quarantine_period, id),
        detector.collect(now, quarantine_period).dead.contains_key(id)
            == detector.dead.contains_key(id),
        detector.collect(now, quarantine_period).samples.contains_key(id)
            == detector.samples.contains_key(id),
{
}

/// A heartbeat of an available member adds the time since the last one, to the nanosecond,
/// as the newest interval; a full window drops its oldest interval for it, and nothing else
/// changes. What happened to the window is told in that order.
pub proof fn law_interval_is_recorded(sample: PhiAccrualView, last: Nanos, now: Nanos)
    requires
        sample.last_timestamp == Some(last),
    ensures
        ({
            let after = sample.beat(now, true);
            let steps = sample.beat_steps(now, true);
            let full = sample.window.len() > 0 && sample.window.len() >= sample.max_sample_size;
            &&& after.window.len() > 0
            &&& after.window.last() matches Interval::Observed(d) && (if last <= now {
                last + d == now
            } else {
                d == 0
            })
            &&& steps.len() > 0
            &&& steps.last() == HistoryStep::Pushed(after.window.last())
            &&& !full ==> after.window.drop_last() == sample.window && steps.len() == 1
            &&& full ==> {
                &&& after.window.drop_last() == sample.window.drop_first()
                &&& steps.len() == 2
                &&& steps[0] == HistoryStep::Evicted(sample.window[0])
            }
            &&& after.last_timestamp == Some(now)
            &&& after.max_sample_size == sample.max_sample_size
        }),
{
    let after = sample.beat(now, true);
    if sample.window.len() > 0 && sample.window.len() >= sample.max_sample_size {
        assert(after.window.drop_last() =~= sample.window.drop_first());
    } else {
        assert(after.window.drop_last() =~= sample.window);
    }
}

/// A heartbeat of a member that is not available leaves the window alone.
pub proof fn law_unavailable_heartbeat_only_sets_the_clock(
    sample: PhiAccrualView,
    last: Nanos,
    now: Nanos,
)
    requires
        sample.last_timestamp == Some(last),
    ensures
        sample.beat(now, false).window == sample.window,
        sample.beat(now, false).last_timestamp == Some(now),
        sample.beat(now, false).max_sample_size == sample.max_sample_size,
        sample.beat_steps(now, false).len() == 0,
{
}

/// The first heartbeat replaces the window by the two seeds, or by the higher one where there
/// is room for one only, whether the member was available or not.
pub proof fn law_first_heartbeat_seeds(sample: PhiAccrualView, now: Nanos, available: bool)
    requires
        sample.last_timestamp is None,
    ensures
        ({
            let after = sample.beat(now, available);
            let steps = sample.beat_steps(now, available);
            &&& after.last_timestamp == Some(now)
            &&& after.max_sample_size == sample.max_sample_size
            &&& sample.max_sample_size >= 2 ==> {
                &&& after.window == seq![Interval::SeedLow, Interval::SeedHigh]
                &&& steps == seq![
                    HistoryStep::Cleared,
                    HistoryStep::Pushed(Interval::SeedLow),
                    HistoryStep::Pushed(Interval::SeedHigh),
                ]
            }
            &&& sample.max_sample_size < 2 ==> {
                &&& after.window == seq![Interval::SeedHigh]
                &&& steps == seq![
                    HistoryStep::Cleared,
                    HistoryStep::Pushed(Interval::SeedLow),
                    HistoryStep::Evicted(Interval::SeedLow),
                    HistoryStep::Pushed(Interval::SeedHigh),
                ]
            }
        }),
{
    let after = sample.beat(now, available);
    let steps = sample.beat_steps(now, available);
    if sample.max_sample_size >= 2 {
        assert(after.window =~= seq![Interval::SeedLow, Interval::SeedHigh]);
        assert(steps =~= seq![
            HistoryStep::Cleared,
            HistoryStep::Pushed(Interval::SeedLow),
            HistoryStep::Pushed(Interval::SeedHigh),
        ]);
    } else {
        assert(after.window =~= seq![Interval::SeedHigh]);
        assert(steps =~= seq![
            HistoryStep::Cleared,
            HistoryStep::Pushed(Interval::SeedLow),
            HistoryStep::Evicted(Interval::SeedLow),
            HistoryStep::Pushed(Interval::SeedHigh),
        ]);
    }
}

/// What is told of a heartbeat, done one after the other, turns the old window into the new
/// one.
pub proof fn law_steps_lead_to_the_window(sample: PhiAccrualView, now: Nanos, available: bool)
    ensures
        replayed(sample.window, sample.beat_steps(now, available)) == sample.beat(
            now,
            available,
        ).window,
{
    reveal_with_fuel(replayed, 6);
    let steps = sample.beat_steps(now, available);
    let after = sample.beat(now, available).window;
    match sample.last_timestamp {
        None => {
            law_first_heartbeat_seeds(sample, now, available);
            assert(steps.drop_last().len() == steps.len() - 1);
            assert(replayed(sample.window, steps) =~= after);
        },
        Some(last) => {
            if available {
                law_interval_is_recorded(sample, last, now);
                assert(replayed(sample.window, steps) =~= after);
            }
        },
    }
}

/// A window after some steps.
pub open spec fn replayed(window: Seq<Interval>, steps: Seq<HistoryStep>) -> Seq<Interval>
    decreases steps.len(),
{
    if steps.len() == 0 {
        window
    } else {
        let before = replayed(window, steps.drop_last());
        match steps.last() {
            HistoryStep::Cleared => Seq::empty(),
            HistoryStep::Evicted(_) => before.drop_first(),
            HistoryStep::Pushed(interval) => before.push(interval),
        }
    }
}

/// Recording a heartbeat of one member leaves the others, and who is live or dead, alone. A
/// member not heard of starts with an empty window of the configured size.
pub proof fn law_recording_concerns_one_member(
    detector: FailureDetectorView,
    id: MemberIdView,
    now: Nanos,
    available: bool,
    other: MemberIdView,
)
    requires
        other != id,
    ensures
        ({
            let after = detector.record(id, now, available);
            &&& after.samples.contains_key(id)
            &&& after.samples[id].last_timestamp == Some(now)
            &&& after.samples[id].max_sample_size == if detector.samples.contains_key(id) {
                detector.samples[id].max_sample_size
            } else {
                detector.max_sample_size
            }
            &&& detector.samples.contains_key(id) ==> after.samples[id]
                == detector.samples[id].beat(now, available)
            &&& !detector.samples.contains_key(id) ==> after.samples[id].window == (
            PhiAccrualView {
                max_sample_size: detector.max_sample_size,
                window: Seq::empty(),
                last_timestamp: None,
            }).beat(now, available).window
            &&& after.samples.contains_key(other) <==> detector.samples.contains_key(other)
            &&& detector.samples.contains_key(other) ==> after.samples[other]
                == detector.samples[other]
            &&& after.live == detector.live
            &&& after.dead == detector.dead
            &&& after.reported == detector.reported
            &&& after.max_sample_size == detector.max_sample_size
        }),
{
}

/// Judging one member sets it live or dead, a newly dead one as of now, and leaves everything
/// else alone.
pub proof fn law_judging_concerns_one_member(
    detector: FailureDetectorView,
    id: MemberIdView,
    available: bool,
    now: Nanos,
    other: MemberIdView,
)
    requires
        other != id,
    ensures
        ({
            let after = detector.judge(id, available, now);
            let alive = available && detector.samples.contains_key(id);
            &&& after.live.contains(id) <==> alive
            &&& after.dead.contains_key(id) <==> !alive
            &&& !alive && !detector.dead.contains_key(id) ==> after.dead[id] == now
            &&& !alive && detector.dead.contains_key(id) ==> after.dead[id] == detector.dead[id]
            &&& after.live.contains(other) <==> detector.live.contains(other)
            &&& after.dead.contains_key(other) <==> detector.dead.contains_key(other)
            &&& detector.dead.contains_key(other) ==> after.dead[other] == detector.dead[other]
            &&& after.samples == detector.samples
            &&& after.reported == detector.reported
            &&& after.max_sample_size == detector.max_sample_size
        }),
{
}

/// Judging several members judges each of them as if it alone were judged, and no other.
pub proof fn law_all_are_judged(
    detector: FailureDetectorView,
    ids: Set<MemberIdView>,
    available: Set<MemberIdView>,
    now: Nanos,
    id: MemberIdView,
)
    ensures
        ({
            let after = detector.judge_all(ids, available, now);
            let alone = detector.judge(id, available.contains(id), now);
            let alive = available.contains(id) && detector.samples.contains_key(id);
            &&& ids.contains(id) ==> {
                &&& after.live.contains(id) <==> alive
                &&& after.dead.contains_key(id) <==> !alive
                &&& after.live.contains(id) <==> alone.live.contains(id)
                &&& after.dead.contains_key(id) <==> alone.dead.contains_key(id)
                &&& after.dead.contains_key(id) ==> after.dead[id] == alone.dead[id]
                &&& !alive ==> after.dead[id] == if detector.dead.contains_key(id) {
                    detector.dead[id]
                } else {
                    now
                }
            }
            &&& !ids.contains(id) ==> {
                &&& after.live.contains(id) <==> detector.live.contains(id)
                &&& after.dead.contains_key(id) <==> detector.dead.contains_key(id)
                &&& detector.dead.contains_key(id) ==> after.dead[id] == detector.dead[id]
            }
            &&& after.samples == detector.samples
            &&& after.reported == detector.reported
            &&& after.max_sample_size == detector.max_sample_size
        }),
{
}

/// Every member that has been dead longer than the quarantine period is collected, whoever
/// else is live or dead, and with it what was heard of it; every other member stays, and so
/// does everything else.
pub proof fn law_quarantine_ends(
    detector: FailureDetectorView,
    now: Nanos,
    quarantine_period: Nanos,
    id: MemberIdView,
)
    ensures
        ({
            let after = detector.collect(now, quarantine_period);
            let over = detector.dead.contains_key(id) && detector.dead[id] + quarantine_period
                < now;
            &&& detector.collectible(now, quarantine_period, id) <==> over
            &&& detector.collected(now, quarantine_period).contains(id) <==> over
            &&& over ==> !after.dead.contains_key(id) && !after.samples.contains_key(id)
            &&& !over ==> {
                &&& after.dead.contains_key(id) <==> detector.dead.contains_key(id)
                &&& detector.dead.contains_key(id) ==> after.dead[id] == detector.dead[id]
                &&& after.samples.contains_key(id) <==> detector.samples.contains_key(id)
                &&& detector.samples.contains_key(id) ==> after.samples[id] == detector.samples[id]
            }
            &&& after.live == detector.live
            &&& after.reported == detector.reported
            &&& after.max_sample_size == detector.max_sample_size
        }),
{
}

} // verus!
