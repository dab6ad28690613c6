//! The contiguity scan, as mathematics: where the unbroken run of pending
//! checkpoints ends, and what moving the held watermark there leaves behind.

use crate::watermark::WatermarkView;
use vstd::prelude::*;

verus! {

/// `to` is where the unbroken run of checkpoints in `keys` that begins right
/// after `from` ends: every checkpoint from `from + 1` through `to` is in
/// `keys`, and `to + 1` is not.
pub open spec fn run_ends_at(keys: Set<int>, from: int, to: int) -> bool {
    &&& from <= to
    &&& forall|k: int| from < k <= to ==> #[trigger] keys.contains(k)
    &&& !keys.contains(to + 1)
}

/// The end of the unbroken run of checkpoints in `keys` that begins right
/// after `from`; `from` itself where `from + 1` is missing.
pub open spec fn run_end(keys: Set<int>, from: int) -> int {
    choose|to: int| run_ends_at(keys, from, to)
}

/// What one contiguity scan yields.
pub struct Scan {
    /// The watermark held after the scan.
    pub watermark: WatermarkView,
    /// What is still pending after the scan.
    pub pending: Map<int, WatermarkView>,
    /// Whether the held watermark was replaced.
    pub advanced: bool,
    /// How many pending watermarks were discarded as already covered.
    pub stale: nat,
    /// How many of the watermarks that were folded in fell behind the one
    /// they replaced, in epoch or in transaction count.
    pub regressed: nat,
}

/// The watermark held while the scan from `current` stands at checkpoint
/// `at`.
pub open spec fn held_at(current: WatermarkView, pending: Map<int, WatermarkView>, at: int)
    -> WatermarkView {
    if at <= current.checkpoint_hi_inclusive {
        current
    } else {
        pending[at]
    }
}

/// How many of the pending watermarks above `current` and up to checkpoint
/// `to` fall behind the one they follow.
pub open spec fn regressions(current: WatermarkView, pending: Map<int, WatermarkView>, to: int)
    -> nat
    decreases to - current.checkpoint_hi_inclusive,
{
    if to <= current.checkpoint_hi_inclusive {
        0
    } else {
        regressions(current, pending, to - 1) + if pending[to].falls_behind(
            held_at(current, pending, to - 1),
        ) {
            1nat
        } else {
            0nat
        }
    }
}

/// The contiguity scan of `pending` from the watermark `current`.
///
/// The held watermark moves to the end of the unbroken run that follows it.
/// Everything up to that end leaves the pending set; what lay at or below
/// the starting checkpoint counts as stale. Only the checkpoint decides
/// what follows what; a watermark that is folded in although its epoch or
/// transaction count runs backwards is counted, and folded in all the same.
pub open spec fn scan(current: WatermarkView, pending: Map<int, WatermarkView>) -> Scan {
    let from = current.checkpoint_hi_inclusive;
    let to = run_end(pending.dom(), from);
    Scan {
        watermark: if to > from {
            pending[to]
        } else {
            current
        },
        pending: pending.restrict(Set::new(|k: int| k > to)),
        advanced: to > from,
        stale: pending.dom().filter(|k: int| k <= from).len(),
        regressed: regressions(current, pending, to),
    }
}

/// A run has one end only.
pub proof fn lemma_run_end_unique(keys: Set<int>, from: int, a: int, b: int)
    requires
        run_ends_at(keys, from, a),
        run_ends_at(keys, from, b),
    ensures
        a == b,
{
    if a < b {
        assert(keys.contains(a + 1));
    } else if b < a {
        assert(keys.contains(b + 1));
    }
}

/// From `at`, which the run reaches, the run goes on to an end.
proof fn lemma_run_goes_on(keys: Set<int>, from: int, at: int)
    requires
        keys.finite(),
        from <= at,
        forall|k: int| from < k <= at ==> #[trigger] keys.contains(k),
    ensures
        exists|to: int| run_ends_at(keys, from, to),
    decreases keys.filter(|k: int| k > at).len(),
{
    if keys.contains(at + 1) {
        let above = keys.filter(|k: int| k > at);
        assert(above.contains(at + 1));
        assert(keys.filter(|k: int| k > at + 1) =~= above.remove(at + 1));
        lemma_run_goes_on(keys, from, at + 1);
    } else {
        assert(run_ends_at(keys, from, at));
    }
}

/// Among finitely many checkpoints every run ends.
pub proof fn lemma_run_ends(keys: Set<int>, from: int)
    requires
        keys.finite(),
    ensures
        run_ends_at(keys, from, run_end(keys, from)),
{
    lemma_run_goes_on(keys, from, from);
}

/// An end of the run is the end of the run.
pub proof fn lemma_run_end_is(keys: Set<int>, from: int, to: int)
    requires
        run_ends_at(keys, from, to),
    ensures
        run_end(keys, from) == to,
{
    lemma_run_end_unique(keys, from, to, run_end(keys, from));
}

} // verus!
