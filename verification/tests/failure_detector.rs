use tchatche::failure_detector::{
    FailureDetector, HeartbeatHistory, HistoryStep, Interval, PhiAccrual,
};
use tchatche::types::MemberId;

const SECOND: u128 = 1_000_000_000;

#[test]
fn the_first_heartbeat_seeds_the_history() {
    let mut failure_detector = FailureDetector::new(1_000);
    let member = MemberId::for_local_test(10_001);
    let steps = failure_detector.record_heartbeat(&member, SECOND, false);
    assert_eq!(
        steps,
        vec![
            HistoryStep::Cleared,
            HistoryStep::Pushed(Interval::SeedLow),
            HistoryStep::Pushed(Interval::SeedHigh),
        ]
    );
    let sample = failure_detector.sample(&member).unwrap();
    assert_eq!(sample.sample_size(), 2);
    assert_eq!(sample.last_timestamp(), Some(SECOND));
    // One heartbeat is enough to be available.
    failure_detector.update_member_liveness(&member, true, SECOND);
    assert_eq!(failure_detector.live_members().len(), 1);
    assert_eq!(failure_detector.dead_members().len(), 0);
}

#[test]
fn a_member_goes_through_its_lifecycle() {
    let mut failure_detector = FailureDetector::new(1_000);
    let member = MemberId::for_local_test(10_001);
    for second in 1..=200 {
        failure_detector.record_heartbeat(&member, second * SECOND, true);
    }
    failure_detector.update_member_liveness(&member, true, 200 * SECOND);
    assert_eq!(failure_detector.live_members(), vec![&member]);
    assert!(failure_detector
        .garbage_collect(200 * SECOND, 10 * SECOND)
        .is_empty());

    // Silence: the member is flagged dead.
    failure_detector.update_member_liveness(&member, false, 230 * SECOND);
    assert_eq!(failure_detector.dead_members(), vec![&member]);
    assert!(failure_detector.live_members().is_empty());
    assert!(failure_detector
        .garbage_collect(230 * SECOND, 10 * SECOND)
        .is_empty());
    // It stays dead since the same moment.
    failure_detector.update_member_liveness(&member, false, 239 * SECOND);

    // At the end of the quarantine period the member is still retained.
    assert!(failure_detector
        .garbage_collect(240 * SECOND, 10 * SECOND)
        .is_empty());

    // After the quarantine period elapses, the member is collectible.
    let collected = failure_detector.garbage_collect(240 * SECOND + 1, 10 * SECOND);
    assert_eq!(collected, vec![member.clone()]);
    assert!(failure_detector.dead_members().is_empty());
    assert!(failure_detector.sample(&member).is_none());
}

#[test]
fn the_pause_of_a_failure_is_not_recorded() {
    let mut arrivals = PhiAccrual::new(1_000);
    arrivals.heartbeat(SECOND, true);
    assert_eq!(
        arrivals.heartbeat(2 * SECOND, true),
        vec![HistoryStep::Pushed(Interval::Observed(SECOND))]
    );
    assert_eq!(arrivals.heartbeat(62 * SECOND, false), vec![]);
    assert_eq!(arrivals.sample_size(), 3);
    assert_eq!(
        arrivals.heartbeat(63 * SECOND, true),
        vec![HistoryStep::Pushed(Interval::Observed(SECOND))]
    );
    // Time does not run backwards.
    assert_eq!(
        arrivals.heartbeat(SECOND, true),
        vec![HistoryStep::Pushed(Interval::Observed(0))]
    );
}

#[test]
fn the_window_is_bounded() {
    let mut history = HeartbeatHistory::new(2);
    let mut steps = Vec::new();
    for nanos in 1..=3 {
        history.push(Interval::Observed(nanos), &mut steps);
    }
    assert_eq!(history.len(), 2);
    assert_eq!(
        steps,
        vec![
            HistoryStep::Pushed(Interval::Observed(1)),
            HistoryStep::Pushed(Interval::Observed(2)),
            HistoryStep::Evicted(Interval::Observed(1)),
            HistoryStep::Pushed(Interval::Observed(3)),
        ]
    );
    let mut tiny = HeartbeatHistory::new(0);
    let mut steps = Vec::new();
    tiny.push(Interval::SeedLow, &mut steps);
    tiny.push(Interval::SeedHigh, &mut steps);
    assert_eq!(tiny.len(), 1);
}

#[test]
fn reports_are_taken_in_order() {
    let mut failure_detector = FailureDetector::new(10);
    let member1 = MemberId::for_local_test(10_001);
    let member2 = MemberId::for_local_test(10_002);
    failure_detector.report_heartbeat(&member2);
    failure_detector.report_heartbeat(&member1);
    failure_detector.report_heartbeat(&member2);
    assert_eq!(
        failure_detector.take_reported_heartbeats(),
        vec![member2.clone(), member1, member2]
    );
    assert!(failure_detector.take_reported_heartbeats().is_empty());
}

#[test]
fn a_member_without_samples_is_dead() {
    let mut failure_detector = FailureDetector::new(10);
    let member = MemberId::for_local_test(10_001);
    failure_detector.update_member_liveness(&member, true, 5);
    assert_eq!(failure_detector.dead_members(), vec![&member]);
    // It revives with its first heartbeat.
    failure_detector.record_heartbeat(&member, 6, false);
    failure_detector.update_member_liveness(&member, true, 7);
    assert!(failure_detector.dead_members().is_empty());
    assert_eq!(failure_detector.live_members(), vec![&member]);
}
