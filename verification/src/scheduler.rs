//! The progression scheduler: one state, one event at a time.
//!
//! The scheduler owns the held watermark and the pending set. Its driver
//! waits on the timer, the notification queue and the cancellation signal,
//! acquires connections and writes watermarks; it hands each outcome in as
//! an [`Event`] and is told by the returned [`Action`] what to do next.

use crate::pending::{checkpoints, extended, keyed_by_checkpoint, views, PendingSet};
use crate::scan::scan;
use crate::watermark::{CommitterWatermark, WatermarkView};
use vstd::prelude::*;

verus! {

/// A persisted update is traced at raised verbosity once the checkpoint has
/// moved this far beyond the previous such trace.
pub const LOUD_WATERMARK_UPDATE_INTERVAL: i64 = 50;

/// A tick that finds more pending watermarks than this reports a backlog.
///
/// A backlog builds up when a pipeline was started above its true
/// watermark, so that the gap in front of the pending set never closes.
pub const WARN_PENDING_WATERMARKS: usize = 10000;

/// Why the scheduler stopped. The reasons differ in what is logged, not in
/// what the scheduler does.
#[derive(Clone, Copy, Debug, PartialEq, Eq, Structural)]
pub enum StopReason {
    /// Watermark tracking is switched off for this pipeline.
    Disabled,
    /// The cancellation signal was observed.
    Cancelled,
    /// The notification source was closed when a cycle ended.
    SourceClosed,
}

/// What the scheduler is waiting for. It runs in every phase but the last.
#[derive(Clone, Copy, Debug, PartialEq, Eq, Structural)]
pub enum Phase {
    /// For the timer, a batch of notifications, or cancellation.
    Waiting,
    /// For a connection, at the start of a progression cycle.
    Connecting,
    /// For the result of writing the advanced watermark.
    Persisting,
    /// For nothing: the scheduler is done.
    Stopped(StopReason),
}

/// What the driver does next.
#[derive(Clone, Copy, Debug, PartialEq, Eq, Structural)]
pub enum Action {
    /// Wait for the timer, the notification queue or cancellation, and hand
    /// in whichever comes first.
    Wait,
    /// Acquire a connection and hand in whether that worked.
    Connect,
    /// Write the held watermark and hand in the result.
    Persist,
    /// Leave the loop.
    Stop(StopReason),
}

/// What happened outside, as the driver saw it.
#[derive(Debug)]
pub enum Event {
    /// The cancellation signal fired.
    Cancelled,
    /// The timer ticked.
    Tick,
    /// A batch of completed checkpoints arrived.
    Received(Vec<CommitterWatermark>),
    /// A connection was acquired. `source_closed` says whether the
    /// notification source is closed by now.
    Connected { source_closed: bool },
    /// No connection could be acquired.
    ConnectFailed,
    /// The write went through. `updated` is false where the stored row was
    /// left as it was, as it is where another writer has moved it further.
    Persisted { updated: bool, source_closed: bool },
    /// The write failed.
    PersistFailed { source_closed: bool },
}

/// The mathematical value of an [`Event`].
pub enum EventView {
    Cancelled,
    Tick,
    Received(Seq<WatermarkView>),
    Connected { source_closed: bool },
    ConnectFailed,
    Persisted { updated: bool, source_closed: bool },
    PersistFailed { source_closed: bool },
}

impl View for Event {
    type V = EventView;

    open spec fn view(&self) -> EventView {
        match self {
            Event::Cancelled => EventView::Cancelled,
            Event::Tick => EventView::Tick,
            Event::Received(batch) => EventView::Received(views(batch@)),
            Event::Connected { source_closed } => EventView::Connected {
                source_closed: *source_closed,
            },
            Event::ConnectFailed => EventView::ConnectFailed,
            Event::Persisted { updated, source_closed } => EventView::Persisted {
                updated: *updated,
                source_closed: *source_closed,
            },
            Event::PersistFailed { source_closed } => EventView::PersistFailed {
                source_closed: *source_closed,
            },
        }
    }
}

/// What a transition has to say to logs and metrics.
#[derive(Clone, Copy, Debug, PartialEq, Eq, Structural)]
pub enum Report {
    /// Nothing.
    Quiet,
    /// A cycle begins with `pending` watermarks waiting, which is more than
    /// [`WARN_PENDING_WATERMARKS`].
    Backlog { pending: usize },
    /// The cycle was skipped for want of a connection.
    ConnectionFailed,
    /// The scan is done: `stale` watermarks were discarded, `pending` are
    /// left, and `regressed` of those folded in fell behind the watermark
    /// they replaced. The held watermark is now what the in-memory gauges
    /// show.
    Gathered { stale: usize, pending: usize, regressed: usize },
    /// The write is done. With `updated` the held watermark is what the
    /// stored row shows; `loud` asks for the trace at raised verbosity.
    Written { updated: bool, loud: bool },
    /// The write failed; the stored row lags behind.
    WriteFailed,
}

/// The mathematical value of a [`Report`].
pub enum ReportView {
    Quiet,
    Backlog { pending: nat },
    ConnectionFailed,
    Gathered { stale: nat, pending: nat, regressed: nat },
    Written { updated: bool, loud: bool },
    WriteFailed,
}

impl View for Report {
    type V = ReportView;

    open spec fn view(&self) -> ReportView {
        match self {
            Report::Quiet => ReportView::Quiet,
            Report::Backlog { pending } => ReportView::Backlog { pending: *pending as nat },
            Report::ConnectionFailed => ReportView::ConnectionFailed,
            Report::Gathered { stale, pending, regressed } => ReportView::Gathered {
                stale: *stale as nat,
                pending: *pending as nat,
                regressed: *regressed as nat,
            },
            Report::Written { updated, loud } => ReportView::Written {
                updated: *updated,
                loud: *loud,
            },
            Report::WriteFailed => ReportView::WriteFailed,
        }
    }
}

/// What one step hands back to the driver.
#[derive(Clone, Copy, Debug, PartialEq, Eq)]
pub struct Step {
    /// What to log and record.
    pub report: Report,
    /// What to do next.
    pub action: Action,
}

/// The mathematical value of a [`Scheduler`].
#[verifier::ext_equal]
pub struct SchedulerView {
    /// The held watermark.
    pub watermark: WatermarkView,
    /// The pending set, by checkpoint.
    pub pending: Map<int, WatermarkView>,
    /// The checkpoint beyond which the next persisted update is loud.
    pub next_loud: int,
    /// What the scheduler is waiting for.
    pub phase: Phase,
}

/// The checkpoints that `event` delivers: those of its batch, if it is one.
pub open spec fn brought(event: EventView) -> Set<int> {
    match event {
        EventView::Received(batch) => checkpoints(batch),
        _ => Set::empty(),
    }
}

/// The checkpoints that the batches among `events` delivered.
pub open spec fn delivered(events: Seq<EventView>) -> Set<int>
    decreases events.len(),
{
    if events.len() == 0 {
        Set::empty()
    } else {
        delivered(events.drop_last()).union(brought(events.last()))
    }
}

/// The action that the driver owes in `phase`.
pub open spec fn action_of(phase: Phase) -> Action {
    match phase {
        Phase::Waiting => Action::Wait,
        Phase::Connecting => Action::Connect,
        Phase::Persisting => Action::Persist,
        Phase::Stopped(reason) => Action::Stop(reason),
    }
}

/// Where a cycle ends: the scheduler stops if the notification source is
/// closed, and waits otherwise.
pub open spec fn settled(source_closed: bool) -> Phase {
    if source_closed {
        Phase::Stopped(StopReason::SourceClosed)
    } else {
        Phase::Waiting
    }
}

impl SchedulerView {
    /// The state in which a scheduler starts with the watermark `start`.
    pub open spec fn initial(start: WatermarkView, skip_watermark: bool) -> SchedulerView {
        SchedulerView {
            watermark: start,
            pending: Map::empty(),
            next_loud: start.checkpoint_hi_inclusive + LOUD_WATERMARK_UPDATE_INTERVAL,
            phase: if skip_watermark {
                Phase::Stopped(StopReason::Disabled)
            } else {
                Phase::Waiting
            },
        }
    }

    /// The pending set is keyed by checkpoint. Every state of a
    /// [`Scheduler`] is valid.
    pub open spec fn valid(self) -> bool {
        keyed_by_checkpoint(self.pending)
    }

    /// Whether the scheduler has stopped.
    pub open spec fn stopped(self) -> bool {
        self.phase is Stopped
    }

    /// Whether a write that succeeds now is traced at raised verbosity.
    pub open spec fn loud(self) -> bool {
        self.watermark.checkpoint_hi_inclusive > self.next_loud
    }

    /// The state after `event`.
    ///
    /// A stopped scheduler stays as it is. A running one stops on
    /// cancellation and takes in a batch in whatever phase it is. Each other
    /// event counts only in the phase that waits for it, and is passed over
    /// elsewhere.
    pub open spec fn next(self, event: EventView) -> SchedulerView {
        if self.stopped() {
            self
        } else {
            match event {
                EventView::Cancelled => SchedulerView {
                    phase: Phase::Stopped(StopReason::Cancelled),
                    ..self
                },
                EventView::Received(batch) => SchedulerView {
                    pending: extended(self.pending, batch),
                    ..self
                },
                EventView::Tick => if self.phase is Waiting {
                    SchedulerView { phase: Phase::Connecting, ..self }
                } else {
                    self
                },
                EventView::ConnectFailed => if self.phase is Connecting {
                    SchedulerView { phase: Phase::Waiting, ..self }
                } else {
                    self
                },
                EventView::Connected { source_closed } => if self.phase is Connecting {
                    let scanned = scan(self.watermark, self.pending);
                    SchedulerView {
                        watermark: scanned.watermark,
                        pending: scanned.pending,
                        phase: if scanned.advanced {
                            Phase::Persisting
                        } else {
                            settled(source_closed)
                        },
                        ..self
                    }
                } else {
                    self
                },
                EventView::Persisted { updated, source_closed } => if self.phase is Persisting {
                    SchedulerView {
                        next_loud: if self.loud() {
                            self.next_loud + LOUD_WATERMARK_UPDATE_INTERVAL
                        } else {
                            self.next_loud
                        },
                        phase: settled(source_closed),
                        ..self
                    }
                } else {
                    self
                },
                EventView::PersistFailed { source_closed } => if self.phase is Persisting {
                    SchedulerView { phase: settled(source_closed), ..self }
                } else {
                    self
                },
            }
        }
    }

    /// The state after the events of `events`, in order.
    pub open spec fn after(self, events: Seq<EventView>) -> SchedulerView
        decreases events.len(),
    {
        if events.len() == 0 {
            self
        } else {
            self.after(events.drop_last()).next(events.last())
        }
    }

    /// What the transition on `event` reports.
    pub open spec fn report(self, event: EventView) -> ReportView {
        match (self.phase, event) {
            (Phase::Waiting, EventView::Tick) => if self.pending.len() > WARN_PENDING_WATERMARKS {
                ReportView::Backlog { pending: self.pending.len() }
            } else {
                ReportView::Quiet
            },
            (Phase::Connecting, EventView::ConnectFailed) => ReportView::ConnectionFailed,
            (Phase::Connecting, EventView::Connected { .. }) => {
                let scanned = scan(self.watermark, self.pending);
                ReportView::Gathered {
                    stale: scanned.stale,
                    pending: scanned.pending.len(),
                    regressed: scanned.regressed,
                }
            },
            (Phase::Persisting, EventView::Persisted { updated, .. }) => ReportView::Written {
                updated,
                loud: self.loud(),
            },
            (Phase::Persisting, EventView::PersistFailed { .. }) => ReportView::WriteFailed,
            _ => ReportView::Quiet,
        }
    }
}

/// The watermark boundary of one pipeline and what is waiting to move it.
pub struct Scheduler {
    watermark: CommitterWatermark,
    pending: PendingSet,
    /// The checkpoint at which the loud-trace interval in force began.
    loud_base: i64,
    phase: Phase,
}

impl View for Scheduler {
    type V = SchedulerView;

    closed spec fn view(&self) -> SchedulerView {
        SchedulerView {
            watermark: self.watermark@,
            pending: self.pending@,
            next_loud: self.loud_base + LOUD_WATERMARK_UPDATE_INTERVAL,
            phase: self.phase,
        }
    }
}

impl Scheduler {
    /// The pending set is well formed.
    pub closed spec fn wf(&self) -> bool {
        self.pending.wf()
    }

    /// The state of a well-formed scheduler is valid.
    pub proof fn lemma_wf_valid(&self)
        requires
            self.wf(),
        ensures
            self@.valid(),
    {
        self.pending.lemma_wf_keyed();
    }

    /// Starts from `initial_watermark`, or, where there is none, from the
    /// watermark that stands before the first real checkpoint of `pipeline`.
    /// With `skip_watermark` the scheduler is stopped from the start.
    pub fn new(
        initial_watermark: Option<CommitterWatermark>,
        pipeline: &str,
        skip_watermark: bool,
    ) -> (s: Scheduler)
        ensures
            s.wf(),
            s@ == SchedulerView::initial(
                match initial_watermark {
                    Some(w) => w@,
                    None => WatermarkView::initial(pipeline@),
                },
                skip_watermark,
            ),
    {
        let watermark = match initial_watermark {
            Some(w) => w,
            None => CommitterWatermark::initial(pipeline.to_owned()),
        };
        let loud_base = watermark.checkpoint_hi_inclusive;
        let phase = if skip_watermark {
            Phase::Stopped(StopReason::Disabled)
        } else {
            Phase::Waiting
        };
        Scheduler { watermark, pending: PendingSet::new(), loud_base, phase }
    }

    /// The held watermark: what the in-memory gauges show, and what a write
    /// stores.
    pub fn watermark(&self) -> (w: &CommitterWatermark)
        ensures
            w@ == self@.watermark,
    {
        &self.watermark
    }

    /// What is pending.
    pub fn pending(&self) -> (p: &PendingSet)
        requires
            self.wf(),
        ensures
            p.wf(),
            p@ == self@.pending,
    {
        &self.pending
    }

    /// What the scheduler is waiting for.
    pub fn phase(&self) -> (p: Phase)
        ensures
            p == self@.phase,
    {
        self.phase
    }

    /// Whether the scheduler has stopped.
    pub fn is_stopped(&self) -> (b: bool)
        ensures
            b == self@.stopped(),
    {
        match self.phase {
            Phase::Stopped(_) => true,
            _ => false,
        }
    }

    /// What the driver does next.
    pub fn action(&self) -> (a: Action)
        ensures
            a == action_of(self@.phase),
    {
        match self.phase {
            Phase::Waiting => Action::Wait,
            Phase::Connecting => Action::Connect,
            Phase::Persisting => Action::Persist,
            Phase::Stopped(reason) => Action::Stop(reason),
        }
    }

    /// Where a cycle ends, given whether the notification source is closed.
    fn settle(source_closed: bool) -> (p: Phase)
        ensures
            p == settled(source_closed),
    {
        if source_closed {
            Phase::Stopped(StopReason::SourceClosed)
        } else {
            Phase::Waiting
        }
    }

    /// Takes `event` in: moves to the next state, and says what to report
    /// and what to do next.
    pub fn step(&mut self, event: Event) -> (r: Step)
        requires
            old(self).wf(),
        ensures
            final(self).wf(),
            final(self)@ == old(self)@.next(event@),
            r.report@ == old(self)@.report(event@),
            r.action == action_of(final(self)@.phase),
    {
        let mut report = Report::Quiet;
        match (self.phase, event) {
            (Phase::Stopped(_), _) => {},
            (_, Event::Cancelled) => {
                self.phase = Phase::Stopped(StopReason::Cancelled);
            },
            (_, Event::Received(batch)) => {
                self.pending.extend(batch);
            },
            (Phase::Waiting, Event::Tick) => {
                let pending = self.pending.len();
                if pending > WARN_PENDING_WATERMARKS {
                    report = Report::Backlog { pending };
                }
                self.phase = Phase::Connecting;
            },
            (Phase::Connecting, Event::ConnectFailed) => {
                report = Report::ConnectionFailed;
                self.phase = Phase::Waiting;
            },
            (Phase::Connecting, Event::Connected { source_closed }) => {
                let progress = self.pending.advance(&mut self.watermark);
                report = Report::Gathered {
                    stale: progress.stale,
                    pending: self.pending.len(),
                    regressed: progress.regressed,
                };
                self.phase = if progress.advanced {
                    Phase::Persisting
                } else {
                    Self::settle(source_closed)
                };
            },
            (Phase::Persisting, Event::Persisted { updated, source_closed }) => {
                let loud = self.loud_base <= i64::MAX - LOUD_WATERMARK_UPDATE_INTERVAL
                    && self.watermark.checkpoint_hi_inclusive > self.loud_base
                    + LOUD_WATERMARK_UPDATE_INTERVAL;
                if loud {
                    self.loud_base = self.loud_base + LOUD_WATERMARK_UPDATE_INTERVAL;
                }
                report = Report::Written { updated, loud };
                self.phase = Self::settle(source_closed);
            },
            (Phase::Persisting, Event::PersistFailed { source_closed }) => {
                report = Report::WriteFailed;
                self.phase = Self::settle(source_closed);
            },
            _ => {},
        }
        Step { report, action: self.action() }
    }
}

} // verus!
