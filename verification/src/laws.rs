//! What holds of the pending set and of the scheduler, whatever arrives and
//! in whatever order.
//!
//! Everything here is stated over the mathematical models, and proved.

use crate::pending::{checkpoints, extended, inserted, keyed_by_checkpoint};
use crate::scan::{
    held_at, lemma_run_end_is, lemma_run_ends, regressions, run_end, run_ends_at, scan, Scan,
};
use crate::scheduler::{
    action_of, brought, delivered, EventView, ReportView, SchedulerView, WARN_PENDING_WATERMARKS,
};
use crate::watermark::WatermarkView;
use vstd::prelude::*;
use vstd::set_lib::{lemma_int_range, lemma_set_disjoint_lens, set_int_range};

verus! {

// Taking batches in.

/// Whether `batch[i]` is the first watermark of `batch` for its checkpoint.
pub open spec fn first_for_its_checkpoint(batch: Seq<WatermarkView>, i: int) -> bool {
    forall|j: int|
        0 <= j < i ==> (#[trigger] batch[j]).checkpoint_hi_inclusive
            != batch[i].checkpoint_hi_inclusive
}

/// Taking in a batch adds exactly its checkpoints, never replaces what was
/// pending, and of several watermarks for one new checkpoint keeps the
/// first.
pub proof fn lemma_extended(pending: Map<int, WatermarkView>, batch: Seq<WatermarkView>)
    ensures
        extended(pending, batch).dom() == pending.dom().union(checkpoints(batch)),
        forall|k: int| #[trigger]
            pending.contains_key(k) ==> extended(pending, batch)[k] == pending[k],
        forall|i: int|
            #![trigger batch[i]]
            {
                let k = batch[i].checkpoint_hi_inclusive;
                0 <= i < batch.len() && !pending.contains_key(k) && first_for_its_checkpoint(
                    batch,
                    i,
                ) ==> extended(pending, batch)[k] == batch[i]
            },
        keyed_by_checkpoint(pending) ==> keyed_by_checkpoint(extended(pending, batch)),
    decreases batch.len(),
{
    if batch.len() == 0 {
        assert(checkpoints(batch) =~= Set::<int>::empty());
        assert(extended(pending, batch).dom() =~= pending.dom().union(checkpoints(batch)));
    } else {
        let front = batch.drop_last();
        let last = batch.last();
        lemma_extended(pending, front);
        let so_far = extended(pending, front);
        assert(extended(pending, batch) == inserted(so_far, last));
        assert(checkpoints(batch) =~= checkpoints(front).insert(last.checkpoint_hi_inclusive)) by {
            assert forall|k: int| checkpoints(batch).contains(k) implies checkpoints(front).insert(
                last.checkpoint_hi_inclusive,
            ).contains(k) by {
                let i = choose|i: int|
                    0 <= i < batch.len() && #[trigger] batch[i].checkpoint_hi_inclusive == k;
                if i < front.len() {
                    assert(front[i].checkpoint_hi_inclusive == k);
                }
            }
            assert forall|k: int|
                checkpoints(front).insert(last.checkpoint_hi_inclusive).contains(
                    k,
                ) implies checkpoints(batch).contains(k) by {
                if k == last.checkpoint_hi_inclusive {
                    assert(batch[batch.len() - 1].checkpoint_hi_inclusive == k);
                } else {
                    let i = choose|i: int|
                        0 <= i < front.len() && #[trigger] front[i].checkpoint_hi_inclusive == k;
                    assert(batch[i].checkpoint_hi_inclusive == k);
                }
            }
        }
        assert(extended(pending, batch).dom() =~= pending.dom().union(checkpoints(batch)));
        assert forall|i: int|
            #![trigger batch[i]]
            0 <= i < batch.len() && !pending.contains_key(batch[i].checkpoint_hi_inclusive)
                && first_for_its_checkpoint(batch, i) implies extended(
            pending,
            batch,
        )[batch[i].checkpoint_hi_inclusive] == batch[i] by {
            let k = batch[i].checkpoint_hi_inclusive;
            if i < front.len() {
                assert(front[i] == batch[i]);
                assert(first_for_its_checkpoint(front, i)) by {
                    assert forall|j: int| 0 <= j < i implies (#[trigger] front[j])
                        .checkpoint_hi_inclusive != k by {
                        assert(front[j] == batch[j]);
                    }
                }
                assert(so_far[k] == batch[i]);
                assert(checkpoints(front).contains(k));
            } else {
                assert(!checkpoints(front).contains(k)) by {
                    if checkpoints(front).contains(k) {
                        let j = choose|j: int|
                            0 <= j < front.len() && #[trigger] front[j].checkpoint_hi_inclusive
                                == k;
                        assert(batch[j] == front[j]);
                    }
                }
            }
        }
    }
}

/// A batch whose checkpoints are all pending already changes nothing.
pub proof fn lemma_nothing_new(pending: Map<int, WatermarkView>, batch: Seq<WatermarkView>)
    requires
        checkpoints(batch).subset_of(pending.dom()),
    ensures
        extended(pending, batch) == pending,
    decreases batch.len(),
{
    if batch.len() > 0 {
        let front = batch.drop_last();
        assert(checkpoints(front).subset_of(pending.dom())) by {
            assert forall|k: int| checkpoints(front).contains(k) implies pending.dom().contains(
                k,
            ) by {
                let i = choose|i: int|
                    0 <= i < front.len() && #[trigger] front[i].checkpoint_hi_inclusive == k;
                assert(batch[i].checkpoint_hi_inclusive == k);
                assert(checkpoints(batch).contains(k));
            }
        }
        lemma_nothing_new(pending, front);
        assert(batch[batch.len() - 1].checkpoint_hi_inclusive
            == batch.last().checkpoint_hi_inclusive);
        assert(checkpoints(batch).contains(batch.last().checkpoint_hi_inclusive));
    }
}

/// Taking in the same batch a second time changes nothing.
pub proof fn lemma_extended_twice(pending: Map<int, WatermarkView>, batch: Seq<WatermarkView>)
    ensures
        extended(extended(pending, batch), batch) == extended(pending, batch),
{
    lemma_extended(pending, batch);
    lemma_nothing_new(extended(pending, batch), batch);
}

/// `a` and `b` hold the same watermarks for the checkpoints above `floor`.
pub open spec fn agree_above(
    a: Map<int, WatermarkView>,
    b: Map<int, WatermarkView>,
    floor: int,
) -> bool {
    forall|k: int|
        k > floor ==> (#[trigger] a.contains_key(k) <==> b.contains_key(k)) && (a.contains_key(k)
            ==> a[k] == b[k])
}

/// Pending sets that agree above a checkpoint still do after both took in
/// the same batch.
pub proof fn lemma_extended_agree(
    a: Map<int, WatermarkView>,
    b: Map<int, WatermarkView>,
    batch: Seq<WatermarkView>,
    floor: int,
)
    requires
        agree_above(a, b, floor),
    ensures
        agree_above(extended(a, batch), extended(b, batch), floor),
    decreases batch.len(),
{
    if batch.len() > 0 {
        let front = batch.drop_last();
        let k = batch.last().checkpoint_hi_inclusive;
        lemma_extended_agree(a, b, front, floor);
        if k > floor {
            assert(extended(a, front).contains_key(k) <==> extended(b, front).contains_key(k));
        }
    }
}

// The contiguity scan.

/// What a scan does, said without the scan's steps.
///
/// The held watermark ends at the end of the unbroken run that followed it:
/// it never moves back, it passes no checkpoint that was not pending, and it
/// stops in front of the first missing one. It is replaced by the pending
/// watermark filed there, or left alone where the run is empty. What remains
/// pending is what lay beyond.
pub proof fn lemma_scan(current: WatermarkView, pending: Map<int, WatermarkView>)
    requires
        keyed_by_checkpoint(pending),
    ensures
        ({
            let done = scan(current, pending);
            let from = current.checkpoint_hi_inclusive;
            let to = done.watermark.checkpoint_hi_inclusive;
            &&& run_ends_at(pending.dom(), from, to)
            &&& done.advanced == (to > from)
            &&& done.advanced ==> pending.contains_key(to) && done.watermark == pending[to]
            &&& !done.advanced ==> done.watermark == current
            &&& keyed_by_checkpoint(done.pending)
            &&& forall|k: int| #[trigger]
                done.pending.contains_key(k) <==> pending.contains_key(k) && k > to
            &&& forall|k: int| #[trigger]
                done.pending.contains_key(k) ==> done.pending[k] == pending[k]
        }),
{
    let from = current.checkpoint_hi_inclusive;
    lemma_run_ends(pending.dom(), from);
    let to = run_end(pending.dom(), from);
    if to > from {
        assert(pending.contains_key(to));
    }
    assert(scan(current, pending).pending.dom() =~= pending.dom().intersect(
        Set::new(|k: int| k > to),
    ));
}

/// A scan takes the whole run: where every checkpoint above the held one
/// and up to `k` is pending, the held watermark reaches `k`.
pub proof fn lemma_scan_takes_the_whole_run(
    current: WatermarkView,
    pending: Map<int, WatermarkView>,
    k: int,
)
    requires
        keyed_by_checkpoint(pending),
        current.checkpoint_hi_inclusive <= k,
        forall|j: int|
            current.checkpoint_hi_inclusive < j <= k ==> #[trigger] pending.contains_key(j),
    ensures
        k <= scan(current, pending).watermark.checkpoint_hi_inclusive,
{
    lemma_scan(current, pending);
    let to = scan(current, pending).watermark.checkpoint_hi_inclusive;
    if to < k {
        assert(pending.contains_key(to + 1));
    }
}

/// A second scan right after a scan finds nothing to do.
pub proof fn lemma_scan_twice(current: WatermarkView, pending: Map<int, WatermarkView>)
    requires
        keyed_by_checkpoint(pending),
    ensures
        ({
            let once = scan(current, pending);
            let twice = scan(once.watermark, once.pending);
            &&& twice.watermark == once.watermark
            &&& twice.pending == once.pending
            &&& !twice.advanced
            &&& twice.stale == 0
            &&& twice.regressed == 0
        }),
{
    lemma_scan(current, pending);
    let once = scan(current, pending);
    let to = once.watermark.checkpoint_hi_inclusive;
    assert(run_ends_at(once.pending.dom(), to, to));
    lemma_run_end_is(once.pending.dom(), to, to);
    assert(once.pending.restrict(Set::new(|k: int| k > to)) =~= once.pending);
    assert(once.pending.dom().filter(|k: int| k <= to) =~= Set::<int>::empty());
}

/// A scan accounts for every pending watermark: each one is discarded as
/// stale, or folded into the held watermark, or still pending.
pub proof fn lemma_scan_accounts_for_all(current: WatermarkView, pending: Map<int, WatermarkView>)
    requires
        keyed_by_checkpoint(pending),
    ensures
        ({
            let done = scan(current, pending);
            let from = current.checkpoint_hi_inclusive;
            let to = done.watermark.checkpoint_hi_inclusive;
            done.stale + (to - from) + done.pending.len() == pending.len()
        }),
{
    lemma_scan(current, pending);
    let done = scan(current, pending);
    let from = current.checkpoint_hi_inclusive;
    let to = done.watermark.checkpoint_hi_inclusive;
    let stale = pending.dom().filter(|k: int| k <= from);
    let folded = set_int_range(from + 1, to + 1);
    let left = done.pending.dom();
    lemma_int_range(from + 1, to + 1);
    lemma_set_disjoint_lens(stale, folded);
    lemma_set_disjoint_lens(stale + folded, left);
    assert(stale.disjoint(folded));
    assert((stale + folded).disjoint(left));
    assert(pending.dom() =~= stale + folded + left);
}

/// The count of regressions looks only at what is pending above the held
/// checkpoint and up to where it counts, and counts each of those once at
/// most.
pub proof fn lemma_regressions_agree(
    current: WatermarkView,
    a: Map<int, WatermarkView>,
    b: Map<int, WatermarkView>,
    to: int,
)
    requires
        current.checkpoint_hi_inclusive <= to,
        forall|k: int| current.checkpoint_hi_inclusive < k <= to ==> #[trigger] a[k] == b[k],
    ensures
        regressions(current, a, to) == regressions(current, b, to),
        regressions(current, a, to) <= to - current.checkpoint_hi_inclusive,
    decreases to - current.checkpoint_hi_inclusive,
{
    if to > current.checkpoint_hi_inclusive {
        lemma_regressions_agree(current, a, b, to - 1);
        assert(a[to] == b[to]);
        assert(held_at(current, a, to - 1) == held_at(current, b, to - 1)) by {
            if to - 1 > current.checkpoint_hi_inclusive {
                assert(a[to - 1] == b[to - 1]);
            }
        }
    }
}

/// A watermark that arrives again after the held watermark has passed its
/// checkpoint is counted as stale, and moves nothing.
pub proof fn lemma_duplicate_is_stale(
    current: WatermarkView,
    pending: Map<int, WatermarkView>,
    w: WatermarkView,
)
    requires
        keyed_by_checkpoint(pending),
        w.checkpoint_hi_inclusive <= current.checkpoint_hi_inclusive,
        !pending.contains_key(w.checkpoint_hi_inclusive),
    ensures
        scan(current, inserted(pending, w)) == (Scan {
            stale: scan(current, pending).stale + 1,
            ..scan(current, pending)
        }),
{
    let from = current.checkpoint_hi_inclusive;
    let with = inserted(pending, w);
    lemma_run_ends(pending.dom(), from);
    let to = run_end(pending.dom(), from);
    assert(run_ends_at(with.dom(), from, to));
    lemma_run_end_is(with.dom(), from, to);
    assert(with.restrict(Set::new(|k: int| k > to)) =~= pending.restrict(
        Set::new(|k: int| k > to),
    ));
    lemma_regressions_agree(current, with, pending, to);
    let stale = pending.dom().filter(|k: int| k <= from);
    assert(with.dom().filter(|k: int| k <= from) =~= stale.insert(w.checkpoint_hi_inclusive));
    assert(stale.finite());
}

/// The order in which a batch arrives decides nothing but which of several
/// watermarks for one checkpoint stays: batches with the same checkpoints
/// leave the same checkpoints pending, and take the held watermark to the
/// same checkpoint.
pub proof fn lemma_arrival_order_decides_no_checkpoint(
    current: WatermarkView,
    pending: Map<int, WatermarkView>,
    one: Seq<WatermarkView>,
    other: Seq<WatermarkView>,
)
    requires
        keyed_by_checkpoint(pending),
        checkpoints(one) == checkpoints(other),
    ensures
        ({
            let a = scan(current, extended(pending, one));
            let b = scan(current, extended(pending, other));
            &&& extended(pending, one).dom() == extended(pending, other).dom()
            &&& a.watermark.checkpoint_hi_inclusive == b.watermark.checkpoint_hi_inclusive
            &&& a.advanced == b.advanced
            &&& a.stale == b.stale
            &&& a.pending.dom() == b.pending.dom()
        }),
{
    lemma_extended(pending, one);
    lemma_extended(pending, other);
    lemma_scan(current, extended(pending, one));
    lemma_scan(current, extended(pending, other));
    assert(scan(current, extended(pending, one)).pending.dom() =~= scan(
        current,
        extended(pending, other),
    ).pending.dom());
}

// The scheduler, step by step and over any run of events.

/// Every step keeps the state valid, never moves the held watermark back,
/// moves it only over checkpoints that were pending, and leaves pending
/// only what was pending or came with the event.
pub proof fn lemma_step(s: SchedulerView, event: EventView)
    requires
        s.valid(),
    ensures
        ({
            let t = s.next(event);
            let from = s.watermark.checkpoint_hi_inclusive;
            let to = t.watermark.checkpoint_hi_inclusive;
            &&& t.valid()
            &&& from <= to
            &&& forall|k: int| from < k <= to ==> #[trigger] s.pending.contains_key(k)
            &&& forall|k: int| #[trigger]
                t.pending.contains_key(k) ==> s.pending.contains_key(k) || brought(
                    event,
                ).contains(k)
        }),
{
    lemma_scan(s.watermark, s.pending);
    if let EventView::Received(batch) = event {
        lemma_extended(s.pending, batch);
    }
}

/// The held watermark never moves back, whatever arrives, in whatever
/// order, and however often.
pub proof fn lemma_watermark_never_moves_back(s: SchedulerView, events: Seq<EventView>)
    requires
        s.valid(),
    ensures
        s.after(events).valid(),
        s.watermark.checkpoint_hi_inclusive <= s.after(events).watermark.checkpoint_hi_inclusive,
    decreases events.len(),
{
    if events.len() > 0 {
        lemma_watermark_never_moves_back(s, events.drop_last());
        lemma_step(s.after(events.drop_last()), events.last());
    }
}

/// The held watermark passes no checkpoint that was never pending: every
/// checkpoint between where it stood and where it stands was pending at the
/// start or was delivered since. So was everything that is pending now.
pub proof fn lemma_no_checkpoint_skipped(s: SchedulerView, events: Seq<EventView>)
    requires
        s.valid(),
    ensures
        ({
            let t = s.after(events);
            let from = s.watermark.checkpoint_hi_inclusive;
            let to = t.watermark.checkpoint_hi_inclusive;
            &&& forall|k: int|
                from < k <= to ==> s.pending.contains_key(k) || #[trigger] delivered(
                    events,
                ).contains(k)
            &&& forall|k: int| #[trigger]
                t.pending.contains_key(k) ==> s.pending.contains_key(k) || delivered(
                    events,
                ).contains(k)
        }),
    decreases events.len(),
{
    if events.len() > 0 {
        let front = events.drop_last();
        let last = events.last();
        lemma_no_checkpoint_skipped(s, front);
        lemma_watermark_never_moves_back(s, front);
        let mid = s.after(front);
        lemma_step(mid, last);
        assert(delivered(front).subset_of(delivered(events)));
        assert(brought(last).subset_of(delivered(events)));
        assert forall|k: int|
            s.watermark.checkpoint_hi_inclusive < k <= s.after(
                events,
            ).watermark.checkpoint_hi_inclusive implies s.pending.contains_key(k)
            || #[trigger] delivered(events).contains(k) by {
            if k > mid.watermark.checkpoint_hi_inclusive {
                assert(mid.pending.contains_key(k));
            } else {
                assert(s.pending.contains_key(k) || delivered(front).contains(k));
            }
        }
    }
}

/// While the scheduler runs, a checkpoint that was pending or delivered is
/// still pending, or the held watermark has reached it.
pub proof fn lemma_delivered_is_pending_or_passed(s: SchedulerView, events: Seq<EventView>)
    requires
        s.valid(),
        !s.after(events).stopped(),
    ensures
        forall|k: int|
            #![trigger s.pending.contains_key(k)]
            #![trigger delivered(events).contains(k)]
            s.pending.contains_key(k) || delivered(events).contains(k) ==> s.after(
                events,
            ).pending.contains_key(k) || k <= s.after(events).watermark.checkpoint_hi_inclusive,
    decreases events.len(),
{
    if events.len() > 0 {
        let front = events.drop_last();
        let last = events.last();
        let mid = s.after(front);
        lemma_watermark_never_moves_back(s, front);
        lemma_delivered_is_pending_or_passed(s, front);
        lemma_scan(mid.watermark, mid.pending);
        if let EventView::Received(batch) = last {
            lemma_extended(mid.pending, batch);
        }
        assert forall|k: int|
            s.pending.contains_key(k) || delivered(events).contains(k) implies s.after(
            events,
        ).pending.contains_key(k) || k <= s.after(events).watermark.checkpoint_hi_inclusive by {
            if s.pending.contains_key(k) || delivered(front).contains(k) {
                assert(mid.pending.contains_key(k) || k <= mid.watermark.checkpoint_hi_inclusive);
            }
        }
    }
}

/// Only a scan takes anything out of the pending set or moves the held
/// watermark: on every event but a connection that was waited for, what was
/// pending stays pending, unchanged, and the held watermark stays. So a
/// watermark that is being written is not changed under the write.
pub proof fn lemma_only_a_scan_consumes(s: SchedulerView, event: EventView)
    requires
        !(s.phase is Connecting && event is Connected),
    ensures
        ({
            let t = s.next(event);
            &&& t.watermark == s.watermark
            &&& forall|k: int| #[trigger]
                s.pending.contains_key(k) ==> t.pending.contains_key(k) && t.pending[k]
                    == s.pending[k]
        }),
{
    if let EventView::Received(batch) = event {
        lemma_extended(s.pending, batch);
    }
}

/// A write is asked for only at the end of a scan that moved the held
/// watermark, in a cycle that a tick began, and what is written then is a
/// watermark that was pending. The watermark that a scheduler starts from is
/// never written.
pub proof fn lemma_written_watermark_was_pending(s: SchedulerView, event: EventView)
    requires
        s.valid(),
        !(s.phase is Persisting),
        s.next(event).phase is Persisting,
    ensures
        ({
            let written = s.next(event).watermark;
            &&& s.phase is Connecting
            &&& event is Connected
            &&& s.watermark.checkpoint_hi_inclusive < written.checkpoint_hi_inclusive
            &&& s.pending.contains_key(written.checkpoint_hi_inclusive)
            &&& s.pending[written.checkpoint_hi_inclusive] == written
        }),
{
    lemma_scan(s.watermark, s.pending);
}

/// A batch that is delivered twice in a row leaves the scheduler as one
/// delivery does.
pub proof fn lemma_redelivery_changes_nothing(s: SchedulerView, batch: Seq<WatermarkView>)
    ensures
        ({
            let once = s.next(EventView::Received(batch));
            once.next(EventView::Received(batch)) == once
        }),
{
    lemma_extended_twice(s.pending, batch);
}

/// `a` and `b` differ at most in what is pending at or below the held
/// watermark.
pub open spec fn same_but_stale(a: SchedulerView, b: SchedulerView) -> bool {
    &&& a.watermark == b.watermark
    &&& a.next_loud == b.next_loud
    &&& a.phase == b.phase
    &&& agree_above(a.pending, b.pending, a.watermark.checkpoint_hi_inclusive)
}

/// What is pending at or below the held watermark changes no step: states
/// that differ only there still differ only there after any event.
pub proof fn lemma_stale_entries_change_no_step(
    a: SchedulerView,
    b: SchedulerView,
    event: EventView,
)
    requires
        a.valid(),
        b.valid(),
        same_but_stale(a, b),
    ensures
        same_but_stale(a.next(event), b.next(event)),
        a.next(event).valid(),
        b.next(event).valid(),
{
    lemma_step(a, event);
    lemma_step(b, event);
    match event {
        EventView::Received(batch) => {
            lemma_extended_agree(a.pending, b.pending, batch, a.watermark.checkpoint_hi_inclusive);
        },
        EventView::Connected { .. } => {
            let from = a.watermark.checkpoint_hi_inclusive;
            lemma_scan(a.watermark, a.pending);
            let to = run_end(a.pending.dom(), from);
            assert(run_ends_at(b.pending.dom(), from, to)) by {
                assert forall|k: int| from < k <= to implies #[trigger] b.pending.dom().contains(
                    k,
                ) by {
                    assert(a.pending.contains_key(k));
                }
                assert(!a.pending.contains_key(to + 1));
            }
            lemma_run_end_is(b.pending.dom(), from, to);
            if to > from {
                assert(a.pending.contains_key(to));
            }
        },
        _ => {},
    }
}

/// A watermark that is delivered again, while its checkpoint is pending or
/// after the held watermark has reached it, changes no watermark that the
/// scheduler will ever hold.
pub proof fn lemma_duplicate_changes_no_watermark(
    s: SchedulerView,
    w: WatermarkView,
    events: Seq<EventView>,
)
    requires
        s.valid(),
        s.pending.contains_key(w.checkpoint_hi_inclusive) || w.checkpoint_hi_inclusive
            <= s.watermark.checkpoint_hi_inclusive,
    ensures
        ({
            let again = s.next(EventView::Received(seq![w]));
            &&& same_but_stale(again.after(events), s.after(events))
            &&& again.after(events).watermark == s.after(events).watermark
        }),
    decreases events.len(),
{
    let again = s.next(EventView::Received(seq![w]));
    lemma_step(s, EventView::Received(seq![w]));
    if events.len() == 0 {
        assert(extended(s.pending, seq![w]) == inserted(s.pending, w)) by {
            reveal_with_fuel(extended, 2);
        }
    } else {
        let front = events.drop_last();
        lemma_duplicate_changes_no_watermark(s, w, front);
        lemma_watermark_never_moves_back(s, front);
        lemma_watermark_never_moves_back(again, front);
        lemma_stale_entries_change_no_step(again.after(front), s.after(front), events.last());
    }
}

// Stopping, failing, warning.

/// A stopped scheduler stays as it is, reports nothing and asks for nothing
/// but to stop, whatever is handed in.
pub proof fn lemma_stopped_is_final(s: SchedulerView, event: EventView)
    requires
        s.stopped(),
    ensures
        s.next(event) == s,
        s.report(event) == ReportView::Quiet,
        action_of(s.next(event).phase) is Stop,
{
}

/// A scheduler that starts with watermarking switched off takes in no
/// notification and never asks for a connection or a write.
pub proof fn lemma_disabled_never_runs(start: WatermarkView, events: Seq<EventView>)
    ensures
        ({
            let disabled = SchedulerView::initial(start, true);
            &&& disabled.after(events) == disabled
            &&& action_of(disabled.after(events).phase) is Stop
        }),
    decreases events.len(),
{
    if events.len() > 0 {
        lemma_disabled_never_runs(start, events.drop_last());
    }
}

/// A cycle that fails to get a connection leaves the scheduler exactly as
/// the tick found it: nothing pending is lost, and the next tick goes on
/// from there.
pub proof fn lemma_failed_connection_loses_nothing(s: SchedulerView)
    requires
        s.phase is Waiting,
    ensures
        s.next(EventView::Tick).next(EventView::ConnectFailed) == s,
        s.next(EventView::Tick).report(EventView::ConnectFailed) == ReportView::ConnectionFailed,
{
}

/// A failed write leaves the held watermark where the scan put it, so the
/// next cycle compares against it; only the stored row lags.
pub proof fn lemma_failed_write_keeps_progress(s: SchedulerView, source_closed: bool)
    requires
        s.phase is Persisting,
    ensures
        s.next(EventView::PersistFailed { source_closed }).watermark == s.watermark,
        s.next(EventView::PersistFailed { source_closed }).pending == s.pending,
{
}

/// A tick reports a backlog exactly when more than the threshold is pending.
pub proof fn lemma_backlog_threshold(s: SchedulerView)
    requires
        s.phase is Waiting,
    ensures
        s.report(EventView::Tick) is Backlog <==> s.pending.len() > WARN_PENDING_WATERMARKS,
{
}

} // verus!
