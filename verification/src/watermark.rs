//! The watermark value and how a pending watermark stands to the one held.

use std::cmp::Ordering;
use vstd::prelude::*;
use vstd::std_specs::cmp::{PartialEqSpecImpl, PartialOrdSpecImpl};

verus! {

/// Where a pending watermark stands relative to the watermark currently held.
#[derive(Clone, Copy, Debug, PartialEq, Eq, Structural)]
pub enum Position {
    /// The pending checkpoint lies beyond the successor of the held one: a
    /// gap separates them.
    Future,
    /// The pending checkpoint is not above the held one: it was delivered
    /// twice, or has been overtaken.
    Past,
    /// The pending checkpoint is the direct successor of the held one.
    Next,
}

/// Everything up to and including `checkpoint_hi_inclusive` has been
/// committed by the named pipeline.
#[derive(Clone, Debug)]
pub struct CommitterWatermark {
    pub pipeline: String,
    pub epoch_hi_inclusive: i64,
    pub checkpoint_hi_inclusive: i64,
    pub tx_hi: i64,
}

/// The mathematical value of a [`CommitterWatermark`].
pub struct WatermarkView {
    pub pipeline: Seq<char>,
    pub epoch_hi_inclusive: int,
    pub checkpoint_hi_inclusive: int,
    pub tx_hi: int,
}

impl WatermarkView {
    /// The watermark of a pipeline that has made no progress yet.
    pub open spec fn initial(pipeline: Seq<char>) -> WatermarkView {
        WatermarkView { pipeline, epoch_hi_inclusive: 0, checkpoint_hi_inclusive: 0, tx_hi: 0 }
    }

    /// Whether the epoch or the transaction counter of `self` lies below
    /// that of `held`. Both counters only ever grow, so a watermark that
    /// follows `held` and falls behind it contradicts itself.
    pub open spec fn falls_behind(self, held: WatermarkView) -> bool {
        self.epoch_hi_inclusive < held.epoch_hi_inclusive || self.tx_hi < held.tx_hi
    }
}

impl View for CommitterWatermark {
    type V = WatermarkView;

    open spec fn view(&self) -> WatermarkView {
        WatermarkView {
            pipeline: self.pipeline@,
            epoch_hi_inclusive: self.epoch_hi_inclusive as int,
            checkpoint_hi_inclusive: self.checkpoint_hi_inclusive as int,
            tx_hi: self.tx_hi as int,
        }
    }
}

/// Two watermarks are equal where their checkpoints are: the checkpoint
/// sequence number alone tells watermarks apart.
impl PartialEq for CommitterWatermark {
    fn eq(&self, other: &CommitterWatermark) -> (r: bool) {
        self.checkpoint_hi_inclusive == other.checkpoint_hi_inclusive
    }
}

impl PartialEqSpecImpl for CommitterWatermark {
    open spec fn obeys_eq_spec() -> bool {
        true
    }

    open spec fn eq_spec(&self, other: &CommitterWatermark) -> bool {
        self.checkpoint_hi_inclusive == other.checkpoint_hi_inclusive
    }
}

impl Eq for CommitterWatermark {}

/// Watermarks are ordered by checkpoint, and by nothing else.
impl PartialOrd for CommitterWatermark {
    fn partial_cmp(&self, other: &CommitterWatermark) -> (r: Option<Ordering>) {
        if self.checkpoint_hi_inclusive < other.checkpoint_hi_inclusive {
            Some(Ordering::Less)
        } else if self.checkpoint_hi_inclusive > other.checkpoint_hi_inclusive {
            Some(Ordering::Greater)
        } else {
            Some(Ordering::Equal)
        }
    }
}

impl PartialOrdSpecImpl for CommitterWatermark {
    open spec fn obeys_partial_cmp_spec() -> bool {
        true
    }

    open spec fn partial_cmp_spec(&self, other: &CommitterWatermark) -> Option<Ordering> {
        if self.checkpoint_hi_inclusive < other.checkpoint_hi_inclusive {
            Some(Ordering::Less)
        } else if self.checkpoint_hi_inclusive > other.checkpoint_hi_inclusive {
            Some(Ordering::Greater)
        } else {
            Some(Ordering::Equal)
        }
    }
}

/// Classifies the checkpoint `pending` against the checkpoint `held`.
///
/// Only the checkpoint sequence number orders two watermarks.
pub open spec fn position_of(held: int, pending: int) -> Position {
    if pending <= held {
        Position::Past
    } else if pending == held + 1 {
        Position::Next
    } else {
        Position::Future
    }
}

impl CommitterWatermark {
    /// A watermark for `pipeline` that stands just before its first real
    /// checkpoint.
    pub fn initial(pipeline: String) -> (w: CommitterWatermark)
        ensures
            w@ == WatermarkView::initial(pipeline@),
    {
        CommitterWatermark { pipeline, epoch_hi_inclusive: 0, checkpoint_hi_inclusive: 0, tx_hi: 0 }
    }

    /// Whether the epoch or the transaction counter of `self` lies below
    /// that of `held`.
    pub fn falls_behind(&self, held: &CommitterWatermark) -> (b: bool)
        ensures
            b == self@.falls_behind(held@),
    {
        self.epoch_hi_inclusive < held.epoch_hi_inclusive || self.tx_hi < held.tx_hi
    }

    /// Classifies `other` against `self` by checkpoint sequence number.
    pub fn next_cmp(&self, other: &CommitterWatermark) -> (p: Position)
        ensures
            p == position_of(self@.checkpoint_hi_inclusive, other@.checkpoint_hi_inclusive),
    {
        if other.checkpoint_hi_inclusive <= self.checkpoint_hi_inclusive {
            Position::Past
        } else if other.checkpoint_hi_inclusive - 1 == self.checkpoint_hi_inclusive {
            Position::Next
        } else {
            Position::Future
        }
    }
}

} // verus!
