use commit_watermark::scheduler::{
    Action, Event, Phase, Report, Scheduler, StopReason, LOUD_WATERMARK_UPDATE_INTERVAL,
    WARN_PENDING_WATERMARKS,
};
use commit_watermark::watermark::CommitterWatermark;

fn at(checkpoint: i64) -> CommitterWatermark {
    CommitterWatermark {
        pipeline: String::from("tx"),
        epoch_hi_inclusive: checkpoint / 100,
        checkpoint_hi_inclusive: checkpoint,
        tx_hi: checkpoint * 10,
    }
}

fn bare(checkpoint: i64) -> CommitterWatermark {
    CommitterWatermark {
        pipeline: String::from("tx"),
        epoch_hi_inclusive: 0,
        checkpoint_hi_inclusive: checkpoint,
        tx_hi: 0,
    }
}

fn batch(checkpoints: &[i64]) -> Event {
    Event::Received(checkpoints.iter().map(|c| at(*c)).collect())
}

fn fresh() -> Scheduler {
    Scheduler::new(None, "tx", false)
}

/// A whole cycle whose write goes through; returns what the write reported.
fn cycle(s: &mut Scheduler) -> Option<Report> {
    assert_eq!(s.step(Event::Tick).action, Action::Connect);
    let gathered = s.step(Event::Connected { source_closed: false });
    if gathered.action == Action::Persist {
        let written = s.step(Event::Persisted { updated: true, source_closed: false });
        assert_eq!(written.action, Action::Wait);
        Some(written.report)
    } else {
        assert_eq!(gathered.action, Action::Wait);
        None
    }
}

#[test]
fn constants_have_their_values() {
    assert_eq!(LOUD_WATERMARK_UPDATE_INTERVAL, 50);
    assert_eq!(WARN_PENDING_WATERMARKS, 10000);
}

#[test]
fn starts_waiting_before_the_first_checkpoint() {
    let s = fresh();
    assert_eq!(s.phase(), Phase::Waiting);
    assert_eq!(s.action(), Action::Wait);
    assert!(!s.is_stopped());
    assert_eq!(s.watermark().pipeline, "tx");
    assert_eq!(s.watermark().epoch_hi_inclusive, 0);
    assert_eq!(s.watermark().checkpoint_hi_inclusive, 0);
    assert_eq!(s.watermark().tx_hi, 0);
    assert_eq!(s.pending().len(), 0);
}

#[test]
fn starts_from_the_watermark_it_is_given() {
    let s = Scheduler::new(Some(at(321)), "ignored", false);
    assert_eq!(s.watermark().pipeline, "tx");
    assert_eq!(s.watermark().epoch_hi_inclusive, 3);
    assert_eq!(s.watermark().checkpoint_hi_inclusive, 321);
    assert_eq!(s.watermark().tx_hi, 3210);
    assert_eq!(s.action(), Action::Wait);
}

#[test]
fn disabled_scheduler_stops_at_once() {
    let mut s = Scheduler::new(Some(at(5)), "tx", true);
    assert_eq!(s.phase(), Phase::Stopped(StopReason::Disabled));
    assert_eq!(s.action(), Action::Stop(StopReason::Disabled));
    assert!(s.is_stopped());

    let events = vec![
        batch(&[6, 7]),
        Event::Tick,
        Event::Connected { source_closed: false },
        Event::Persisted { updated: true, source_closed: false },
        Event::PersistFailed { source_closed: true },
        Event::ConnectFailed,
        Event::Cancelled,
    ];
    for event in events {
        let step = s.step(event);
        assert_eq!(step.report, Report::Quiet);
        assert_eq!(step.action, Action::Stop(StopReason::Disabled));
        assert_eq!(s.pending().len(), 0);
        assert_eq!(s.watermark().checkpoint_hi_inclusive, 5);
    }
}

#[test]
fn cancellation_stops_without_a_flush() {
    let mut s = fresh();
    s.step(batch(&[1, 2]));
    let step = s.step(Event::Cancelled);
    assert_eq!(step.report, Report::Quiet);
    assert_eq!(step.action, Action::Stop(StopReason::Cancelled));
    assert_eq!(s.phase(), Phase::Stopped(StopReason::Cancelled));
    assert_eq!(s.watermark().checkpoint_hi_inclusive, 0);
    assert_eq!(s.pending().len(), 2);

    let after = s.step(Event::Tick);
    assert_eq!(after.action, Action::Stop(StopReason::Cancelled));
    assert_eq!(s.step(batch(&[3])).action, Action::Stop(StopReason::Cancelled));
    assert_eq!(s.pending().len(), 2);
}

#[test]
fn cancellation_stops_in_every_running_phase() {
    let mut connecting = fresh();
    connecting.step(Event::Tick);
    assert_eq!(connecting.step(Event::Cancelled).action, Action::Stop(StopReason::Cancelled));

    let mut persisting = fresh();
    persisting.step(batch(&[1]));
    persisting.step(Event::Tick);
    assert_eq!(persisting.step(Event::Connected { source_closed: false }).action, Action::Persist);
    assert_eq!(persisting.step(Event::Cancelled).action, Action::Stop(StopReason::Cancelled));
    assert_eq!(
        persisting.step(Event::Persisted { updated: true, source_closed: false }).report,
        Report::Quiet
    );
}

#[test]
fn a_batch_alone_starts_no_cycle() {
    let mut s = fresh();
    let step = s.step(batch(&[1, 2, 3]));
    assert_eq!(step.report, Report::Quiet);
    assert_eq!(step.action, Action::Wait);
    assert_eq!(s.phase(), Phase::Waiting);
    assert_eq!(s.watermark().checkpoint_hi_inclusive, 0);
    assert_eq!(s.pending().len(), 3);
}

#[test]
fn a_cycle_gathers_then_persists() {
    let mut s = fresh();
    s.step(batch(&[2, 1, 4]));

    let tick = s.step(Event::Tick);
    assert_eq!(tick.report, Report::Quiet);
    assert_eq!(tick.action, Action::Connect);
    assert_eq!(s.phase(), Phase::Connecting);

    let gathered = s.step(Event::Connected { source_closed: false });
    assert_eq!(gathered.report, Report::Gathered { stale: 0, pending: 1, regressed: 0 });
    assert_eq!(gathered.action, Action::Persist);
    assert_eq!(s.phase(), Phase::Persisting);
    assert_eq!(s.watermark().checkpoint_hi_inclusive, 2);
    assert_eq!(s.watermark().tx_hi, 20);

    let written = s.step(Event::Persisted { updated: true, source_closed: false });
    assert_eq!(written.report, Report::Written { updated: true, loud: false });
    assert_eq!(written.action, Action::Wait);
    assert_eq!(s.phase(), Phase::Waiting);
    assert_eq!(s.pending().first().unwrap().checkpoint_hi_inclusive, 4);
}

#[test]
fn a_cycle_without_progress_does_not_persist() {
    let mut s = Scheduler::new(Some(at(5)), "tx", false);
    s.step(batch(&[3, 4, 7]));
    s.step(Event::Tick);
    let gathered = s.step(Event::Connected { source_closed: false });
    assert_eq!(gathered.report, Report::Gathered { stale: 2, pending: 1, regressed: 0 });
    assert_eq!(gathered.action, Action::Wait);
    assert_eq!(s.watermark().checkpoint_hi_inclusive, 5);
}

#[test]
fn out_of_order_startup_advances_over_the_successor() {
    let mut s = Scheduler::new(Some(at(5)), "tx", false);
    s.step(batch(&[3, 4, 6]));
    s.step(Event::Tick);
    let gathered = s.step(Event::Connected { source_closed: false });
    assert_eq!(gathered.report, Report::Gathered { stale: 2, pending: 0, regressed: 0 });
    assert_eq!(gathered.action, Action::Persist);
    assert_eq!(s.watermark().checkpoint_hi_inclusive, 6);
}

#[test]
fn failed_connection_loses_nothing() {
    let mut s = fresh();
    s.step(batch(&[1, 2]));
    assert_eq!(s.step(Event::Tick).action, Action::Connect);

    let failed = s.step(Event::ConnectFailed);
    assert_eq!(failed.report, Report::ConnectionFailed);
    assert_eq!(failed.action, Action::Wait);
    assert_eq!(s.phase(), Phase::Waiting);
    assert_eq!(s.watermark().checkpoint_hi_inclusive, 0);
    assert_eq!(s.pending().len(), 2);

    s.step(batch(&[3]));
    assert_eq!(s.step(Event::Tick).action, Action::Connect);
    let gathered = s.step(Event::Connected { source_closed: false });
    assert_eq!(gathered.report, Report::Gathered { stale: 0, pending: 0, regressed: 0 });
    assert_eq!(gathered.action, Action::Persist);
    assert_eq!(s.watermark().checkpoint_hi_inclusive, 3);
}

#[test]
fn failed_connection_does_not_look_at_the_source() {
    let mut s = fresh();
    s.step(Event::Tick);
    assert_eq!(s.step(Event::ConnectFailed).action, Action::Wait);
    assert!(!s.is_stopped());
}

#[test]
fn failed_write_keeps_the_progress_in_memory() {
    let mut s = fresh();
    s.step(batch(&[1, 2]));
    s.step(Event::Tick);
    s.step(Event::Connected { source_closed: false });
    let failed = s.step(Event::PersistFailed { source_closed: false });
    assert_eq!(failed.report, Report::WriteFailed);
    assert_eq!(failed.action, Action::Wait);
    assert_eq!(s.watermark().checkpoint_hi_inclusive, 2);

    s.step(batch(&[3, 2]));
    s.step(Event::Tick);
    let gathered = s.step(Event::Connected { source_closed: false });
    assert_eq!(gathered.report, Report::Gathered { stale: 1, pending: 0, regressed: 0 });
    assert_eq!(gathered.action, Action::Persist);
    assert_eq!(s.watermark().checkpoint_hi_inclusive, 3);
}

#[test]
fn a_write_that_changed_nothing_is_reported_as_such() {
    let mut s = fresh();
    s.step(batch(&[1]));
    s.step(Event::Tick);
    s.step(Event::Connected { source_closed: false });
    let written = s.step(Event::Persisted { updated: false, source_closed: false });
    assert_eq!(written.report, Report::Written { updated: false, loud: false });
    assert_eq!(written.action, Action::Wait);
}

#[test]
fn closed_source_stops_when_the_cycle_ends() {
    let mut idle = fresh();
    idle.step(Event::Tick);
    let gathered = idle.step(Event::Connected { source_closed: true });
    assert_eq!(gathered.report, Report::Gathered { stale: 0, pending: 0, regressed: 0 });
    assert_eq!(gathered.action, Action::Stop(StopReason::SourceClosed));
    assert_eq!(idle.phase(), Phase::Stopped(StopReason::SourceClosed));

    let mut writing = fresh();
    writing.step(batch(&[1]));
    writing.step(Event::Tick);
    let gathered = writing.step(Event::Connected { source_closed: true });
    assert_eq!(gathered.action, Action::Persist);
    let written = writing.step(Event::Persisted { updated: true, source_closed: true });
    assert_eq!(written.report, Report::Written { updated: true, loud: false });
    assert_eq!(written.action, Action::Stop(StopReason::SourceClosed));

    let mut failing = fresh();
    failing.step(batch(&[1]));
    failing.step(Event::Tick);
    failing.step(Event::Connected { source_closed: false });
    let failed = failing.step(Event::PersistFailed { source_closed: true });
    assert_eq!(failed.report, Report::WriteFailed);
    assert_eq!(failed.action, Action::Stop(StopReason::SourceClosed));
}

#[test]
fn closed_source_with_a_gap_still_stops() {
    let mut s = fresh();
    s.step(batch(&[2, 3]));
    s.step(Event::Tick);
    let gathered = s.step(Event::Connected { source_closed: true });
    assert_eq!(gathered.report, Report::Gathered { stale: 0, pending: 2, regressed: 0 });
    assert_eq!(gathered.action, Action::Stop(StopReason::SourceClosed));
    assert_eq!(s.watermark().checkpoint_hi_inclusive, 0);
}

#[test]
fn backlog_at_the_threshold_does_not_warn() {
    let mut s = fresh();
    s.step(Event::Received((2..=10001).map(at).collect()));
    assert_eq!(s.pending().len(), 10000);
    let tick = s.step(Event::Tick);
    assert_eq!(tick.report, Report::Quiet);
    assert_eq!(tick.action, Action::Connect);
}

#[test]
fn backlog_above_the_threshold_warns() {
    let mut s = fresh();
    s.step(Event::Received((2..=10002).map(at).collect()));
    assert_eq!(s.pending().len(), 10001);
    let tick = s.step(Event::Tick);
    assert_eq!(tick.report, Report::Backlog { pending: 10001 });
    assert_eq!(tick.action, Action::Connect);

    let gathered = s.step(Event::Connected { source_closed: false });
    assert_eq!(gathered.report, Report::Gathered { stale: 0, pending: 10001, regressed: 0 });
    assert_eq!(gathered.action, Action::Wait);
}

#[test]
fn a_write_is_loud_once_per_interval() {
    let mut s = fresh();
    s.step(Event::Received((1..=50).map(at).collect()));
    assert_eq!(cycle(&mut s), Some(Report::Written { updated: true, loud: false }));
    assert_eq!(s.watermark().checkpoint_hi_inclusive, 50);

    s.step(batch(&[51]));
    assert_eq!(cycle(&mut s), Some(Report::Written { updated: true, loud: true }));

    s.step(Event::Received((52..=100).map(at).collect()));
    assert_eq!(cycle(&mut s), Some(Report::Written { updated: true, loud: false }));
    assert_eq!(s.watermark().checkpoint_hi_inclusive, 100);

    s.step(batch(&[101]));
    assert_eq!(cycle(&mut s), Some(Report::Written { updated: true, loud: true }));

    s.step(batch(&[102]));
    assert_eq!(cycle(&mut s), Some(Report::Written { updated: true, loud: false }));
}

#[test]
fn the_loud_threshold_moves_one_interval_at_a_time() {
    let mut s = fresh();
    s.step(Event::Received((1..=500).map(at).collect()));
    assert_eq!(cycle(&mut s), Some(Report::Written { updated: true, loud: true }));
    for next in 501..=508 {
        s.step(batch(&[next]));
        assert_eq!(cycle(&mut s), Some(Report::Written { updated: true, loud: true }));
    }
    s.step(batch(&[509]));
    assert_eq!(cycle(&mut s), Some(Report::Written { updated: true, loud: true }));
    s.step(batch(&[510]));
    assert_eq!(cycle(&mut s), Some(Report::Written { updated: true, loud: false }));
}

#[test]
fn a_failed_write_leaves_the_loud_threshold() {
    let mut s = fresh();
    s.step(Event::Received((1..=60).map(at).collect()));
    s.step(Event::Tick);
    s.step(Event::Connected { source_closed: false });
    s.step(Event::PersistFailed { source_closed: false });
    s.step(batch(&[61]));
    assert_eq!(cycle(&mut s), Some(Report::Written { updated: true, loud: true }));
    s.step(batch(&[62]));
    assert_eq!(cycle(&mut s), Some(Report::Written { updated: true, loud: false }));
}

#[test]
fn a_write_that_changed_nothing_can_be_loud_too() {
    let mut s = fresh();
    s.step(Event::Received((1..=51).map(at).collect()));
    s.step(Event::Tick);
    s.step(Event::Connected { source_closed: false });
    let written = s.step(Event::Persisted { updated: false, source_closed: false });
    assert_eq!(written.report, Report::Written { updated: false, loud: true });
}

#[test]
fn the_loud_threshold_near_the_last_checkpoint_does_not_wrap() {
    let mut s = Scheduler::new(Some(bare(i64::MAX - 10)), "tx", false);
    s.step(Event::Received(vec![bare(i64::MAX - 9)]));
    assert_eq!(cycle(&mut s), Some(Report::Written { updated: true, loud: false }));
    s.step(Event::Received(((i64::MAX - 8)..=i64::MAX).map(bare).collect()));
    assert_eq!(cycle(&mut s), Some(Report::Written { updated: true, loud: false }));
    assert_eq!(s.watermark().checkpoint_hi_inclusive, i64::MAX);
}

#[test]
fn events_out_of_turn_are_passed_over() {
    let mut s = fresh();
    s.step(batch(&[1]));
    for event in vec![
        Event::Connected { source_closed: true },
        Event::ConnectFailed,
        Event::Persisted { updated: true, source_closed: true },
        Event::PersistFailed { source_closed: true },
    ] {
        let step = s.step(event);
        assert_eq!(step.report, Report::Quiet);
        assert_eq!(step.action, Action::Wait);
        assert_eq!(s.watermark().checkpoint_hi_inclusive, 0);
        assert_eq!(s.pending().len(), 1);
    }

    s.step(Event::Tick);
    for event in vec![
        Event::Tick,
        Event::Persisted { updated: true, source_closed: true },
        Event::PersistFailed { source_closed: true },
    ] {
        let step = s.step(event);
        assert_eq!(step.report, Report::Quiet);
        assert_eq!(step.action, Action::Connect);
    }

    s.step(Event::Connected { source_closed: false });
    for event in vec![Event::Tick, Event::Connected { source_closed: true }, Event::ConnectFailed] {
        let step = s.step(event);
        assert_eq!(step.report, Report::Quiet);
        assert_eq!(step.action, Action::Persist);
        assert_eq!(s.watermark().checkpoint_hi_inclusive, 1);
    }
}

#[test]
fn a_batch_is_taken_in_during_a_cycle() {
    let mut s = fresh();
    s.step(batch(&[1]));
    s.step(Event::Tick);
    let step = s.step(batch(&[2]));
    assert_eq!(step.report, Report::Quiet);
    assert_eq!(step.action, Action::Connect);
    let gathered = s.step(Event::Connected { source_closed: false });
    assert_eq!(gathered.report, Report::Gathered { stale: 0, pending: 0, regressed: 0 });
    assert_eq!(s.watermark().checkpoint_hi_inclusive, 2);

    let step = s.step(batch(&[3]));
    assert_eq!(step.action, Action::Persist);
    assert_eq!(s.watermark().checkpoint_hi_inclusive, 2);
    assert_eq!(s.pending().len(), 1);
}

#[test]
fn redelivery_leaves_the_final_watermark_alone() {
    let mut once = fresh();
    once.step(batch(&[1, 2, 3]));
    cycle(&mut once);

    let mut twice = fresh();
    twice.step(batch(&[1, 2, 3]));
    twice.step(batch(&[1, 2, 3]));
    cycle(&mut twice);

    assert_eq!(once.watermark().checkpoint_hi_inclusive, 3);
    assert_eq!(twice.watermark().checkpoint_hi_inclusive, 3);
    assert_eq!(once.pending().len(), twice.pending().len());

    twice.step(batch(&[1, 2, 3]));
    twice.step(Event::Tick);
    let gathered = twice.step(Event::Connected { source_closed: false });
    assert_eq!(gathered.report, Report::Gathered { stale: 3, pending: 0, regressed: 0 });
    assert_eq!(gathered.action, Action::Wait);
    assert_eq!(twice.watermark().checkpoint_hi_inclusive, 3);
}

#[test]
fn the_watermark_never_moves_back_over_many_cycles() {
    let mut s = fresh();
    let rounds: Vec<Vec<i64>> =
        vec![vec![3, 1], vec![2, 2], vec![0, 1], vec![6, 5], vec![4], vec![1, 9], vec![7, 8]];
    let expected = vec![1, 3, 3, 3, 6, 6, 9];
    let mut last = 0;
    for (round, want) in rounds.iter().zip(expected) {
        s.step(batch(round));
        cycle(&mut s);
        let now = s.watermark().checkpoint_hi_inclusive;
        assert!(now >= last);
        assert_eq!(now, want);
        last = now;
    }
}

#[test]
fn a_counter_that_runs_backwards_is_reported() {
    let mut s = Scheduler::new(Some(at(200)), "tx", false);
    let behind = CommitterWatermark {
        pipeline: String::from("tx"),
        epoch_hi_inclusive: 1,
        checkpoint_hi_inclusive: 201,
        tx_hi: 2005,
    };
    s.step(Event::Received(vec![behind, at(202)]));
    s.step(Event::Tick);
    let gathered = s.step(Event::Connected { source_closed: false });
    assert_eq!(gathered.report, Report::Gathered { stale: 0, pending: 0, regressed: 1 });
    assert_eq!(gathered.action, Action::Persist);
    assert_eq!(s.watermark().checkpoint_hi_inclusive, 202);
    assert_eq!(s.watermark().epoch_hi_inclusive, 2);
}
