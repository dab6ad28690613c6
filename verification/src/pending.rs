//! The set of watermarks that have been received and are not yet folded
//! into the held watermark, ordered by checkpoint.

use crate::scan::{lemma_run_end_is, regressions, run_ends_at, scan};
use crate::watermark::{CommitterWatermark, Position, WatermarkView};
use std::collections::BTreeMap;
use vstd::laws_cmp::obeys_cmp;
use vstd::prelude::*;
use vstd::std_specs::btree::increasing_seq;
use vstd::std_specs::cmp::OrdSpec;

verus! {

/// Every entry of `pending` is filed under its own checkpoint, and there are
/// finitely many.
pub open spec fn keyed_by_checkpoint(pending: Map<int, WatermarkView>) -> bool {
    &&& pending.dom().finite()
    &&& forall|k: int| #[trigger]
        pending.contains_key(k) ==> pending[k].checkpoint_hi_inclusive == k
}

/// `pending` after `w` arrived: a watermark whose checkpoint is already
/// pending is dropped, and the earlier one stays.
pub open spec fn inserted(pending: Map<int, WatermarkView>, w: WatermarkView) -> Map<
    int,
    WatermarkView,
> {
    if pending.contains_key(w.checkpoint_hi_inclusive) {
        pending
    } else {
        pending.insert(w.checkpoint_hi_inclusive, w)
    }
}

/// The models of the watermarks in `batch`, in order.
pub open spec fn views(batch: Seq<CommitterWatermark>) -> Seq<WatermarkView> {
    batch.map_values(|w: CommitterWatermark| w@)
}

/// `pending` after every watermark of `batch` arrived, in order.
pub open spec fn extended(pending: Map<int, WatermarkView>, batch: Seq<WatermarkView>) -> Map<
    int,
    WatermarkView,
>
    decreases batch.len(),
{
    if batch.len() == 0 {
        pending
    } else {
        inserted(extended(pending, batch.drop_last()), batch.last())
    }
}

/// The checkpoints that occur in `batch`.
pub open spec fn checkpoints(batch: Seq<WatermarkView>) -> Set<int> {
    Set::new(
        |k: int|
            exists|i: int|
                0 <= i < batch.len() && #[trigger] batch[i].checkpoint_hi_inclusive == k,
    )
}

/// `w` is the entry of `pending` with the least checkpoint.
pub open spec fn least_of(pending: Map<int, WatermarkView>, w: WatermarkView) -> bool {
    &&& pending.contains_key(w.checkpoint_hi_inclusive)
    &&& pending[w.checkpoint_hi_inclusive] == w
    &&& forall|k: int| #[trigger] pending.contains_key(k) ==> w.checkpoint_hi_inclusive <= k
}

/// What a finished scan reports.
#[derive(Clone, Copy, Debug, PartialEq, Eq)]
pub struct Progress {
    /// Whether the held watermark was replaced by a later one.
    pub advanced: bool,
    /// How many pending watermarks were discarded as already covered.
    pub stale: usize,
    /// How many of the watermarks that were folded in fell behind the one
    /// they replaced, in epoch or in transaction count.
    pub regressed: usize,
}

/// The entry of `entries` with the least key, if there is one.
///
/// The map hands its entries out in increasing order of their keys, so the
/// first one that its iterator yields is the least.
fn least_entry(entries: &BTreeMap<i64, CommitterWatermark>) -> (r: Option<
    (&i64, &CommitterWatermark),
>)
    ensures
        match r {
            Some((k, w)) => {
                &&& entries@.contains_key(*k)
                &&& entries@[*k] == *w
                &&& forall|j: i64| #[trigger] entries@.contains_key(j) ==> *k <= j
            },
            None => entries@ == Map::<i64, CommitterWatermark>::empty(),
        },
{
    for entry in ordered: entries.iter()
        invariant
            ordered.index() == 0,
            increasing_seq(ordered.seq().map_values(|kv: (&i64, &CommitterWatermark)| *kv.0)),
            forall|k: i64| #[trigger]
                entries@.contains_key(k) ==> ordered.seq().contains((&k, &entries@[k])),
            forall|i: int|
                0 <= i < ordered.seq().len() ==> entries@.contains_key(
                    *(#[trigger] ordered.seq()[i]).0,
                ) && entries@[*ordered.seq()[i].0] == *ordered.seq()[i].1,
    {
        proof {
            let all = ordered.seq();
            let keys = all.map_values(|kv: (&i64, &CommitterWatermark)| *kv.0);
            assert(obeys_cmp::<i64>());
            assert forall|j: i64| #[trigger] entries@.contains_key(j) implies *entry.0 <= j by {
                let at = choose|at: int| 0 <= at < all.len() && all[at] == (&j, &entries@[j]);
                assert(keys[at] == j);
                if at > 0 {
                    assert(OrdSpec::cmp_spec(&keys[0], &keys[at]) is Less);
                }
            }
        }
        return Some(entry);
    }
    None
}

/// Watermarks received and not yet consumed, at most one per checkpoint.
pub struct PendingSet {
    by_checkpoint: BTreeMap<i64, CommitterWatermark>,
}

impl View for PendingSet {
    type V = Map<int, WatermarkView>;

    closed spec fn view(&self) -> Map<int, WatermarkView> {
        Map::new(
            |k: int| i64::MIN <= k <= i64::MAX && self.by_checkpoint@.contains_key(k as i64),
            |k: int| self.by_checkpoint@[k as i64]@,
        )
    }
}

impl PendingSet {
    /// Every stored watermark is filed under its own checkpoint.
    pub closed spec fn wf(&self) -> bool {
        forall|k: i64| #[trigger]
            self.by_checkpoint@.contains_key(k)
                ==> self.by_checkpoint@[k].checkpoint_hi_inclusive == k
    }

    /// The model of a well-formed set is keyed by checkpoint.
    pub proof fn lemma_wf_keyed(&self)
        requires
            self.wf(),
        ensures
            keyed_by_checkpoint(self@),
    {
        self.lemma_view();
    }

    /// How the model of a well-formed set relates to the stored map.
    proof fn lemma_view(&self)
        requires
            self.wf(),
        ensures
            keyed_by_checkpoint(self@),
            self@.len() == self.by_checkpoint@.len(),
            forall|k: i64| #[trigger]
                self.by_checkpoint@.contains_key(k) <==> self@.contains_key(k as int),
            forall|k: i64| #[trigger]
                self.by_checkpoint@.contains_key(k) ==> self@[k as int] == self.by_checkpoint@[k]@,
    {
        let widen = |k: i64| k as int;
        assert(self@.dom() =~= self.by_checkpoint@.dom().map(widen)) by {
            assert forall|k: int| self@.dom().contains(k) implies self.by_checkpoint@.dom().map(
                widen,
            ).contains(k) by {
                assert(self.by_checkpoint@.dom().contains(k as i64));
                assert(widen(k as i64) == k);
            }
        }
        self.by_checkpoint@.dom().lemma_map_finite(widen);
        vstd::set_lib::lemma_map_size(self.by_checkpoint@.dom(), self@.dom(), widen);
    }

    /// An empty set.
    pub fn new() -> (s: PendingSet)
        ensures
            s.wf(),
            s@ == Map::<int, WatermarkView>::empty(),
    {
        let s = PendingSet { by_checkpoint: BTreeMap::new() };
        assert(s@ =~= Map::<int, WatermarkView>::empty());
        s
    }

    /// The number of pending watermarks.
    pub fn len(&self) -> (n: usize)
        requires
            self.wf(),
        ensures
            n == self@.len(),
    {
        proof {
            self.lemma_view();
        }
        self.by_checkpoint.len()
    }

    /// Whether nothing is pending.
    pub fn is_empty(&self) -> (b: bool)
        requires
            self.wf(),
        ensures
            b == (self@.len() == 0),
    {
        self.len() == 0
    }

    /// Adds `w` unless a watermark for its checkpoint is already pending.
    /// Returns whether `w` was added.
    pub fn insert(&mut self, w: CommitterWatermark) -> (added: bool)
        requires
            old(self).wf(),
        ensures
            final(self).wf(),
            added == !old(self)@.contains_key(w@.checkpoint_hi_inclusive),
            final(self)@ == inserted(old(self)@, w@),
    {
        proof {
            self.lemma_view();
        }
        let checkpoint = w.checkpoint_hi_inclusive;
        let added = if self.by_checkpoint.contains_key(&checkpoint) {
            false
        } else {
            self.by_checkpoint.insert(checkpoint, w);
            true
        };
        proof {
            self.lemma_view();
            assert(self@ =~= inserted(old(self)@, w@));
        }
        added
    }

    /// The pending watermark with the least checkpoint, if there is one.
    pub fn first(&self) -> (r: Option<&CommitterWatermark>)
        requires
            self.wf(),
        ensures
            match r {
                Some(w) => least_of(self@, w@),
                None => self@.len() == 0,
            },
    {
        proof {
            self.lemma_view();
        }
        match least_entry(&self.by_checkpoint) {
            Some((_, w)) => Some(w),
            None => None,
        }
    }

    /// Removes and returns the watermark pending for `checkpoint`, if there
    /// is one.
    fn take(&mut self, checkpoint: i64) -> (r: Option<CommitterWatermark>)
        requires
            old(self).wf(),
        ensures
            final(self).wf(),
            match r {
                Some(w) => {
                    &&& old(self)@.contains_key(checkpoint as int)
                    &&& old(self)@[checkpoint as int] == w@
                    &&& final(self)@ == old(self)@.remove(checkpoint as int)
                },
                None => !old(self)@.contains_key(checkpoint as int) && final(self)@ == old(self)@,
            },
    {
        proof {
            self.lemma_view();
        }
        let taken = self.by_checkpoint.remove(&checkpoint);
        proof {
            self.lemma_view();
            assert(self@ =~= old(self)@.remove(checkpoint as int));
        }
        taken
    }

    /// Removes and returns the pending watermark with the least checkpoint,
    /// if there is one.
    pub fn pop_first(&mut self) -> (r: Option<CommitterWatermark>)
        requires
            old(self).wf(),
        ensures
            final(self).wf(),
            match r {
                Some(w) => {
                    &&& least_of(old(self)@, w@)
                    &&& final(self)@ == old(self)@.remove(w@.checkpoint_hi_inclusive)
                },
                None => old(self)@.len() == 0 && final(self)@ == old(self)@,
            },
    {
        let checkpoint = match self.first() {
            Some(w) => w.checkpoint_hi_inclusive,
            None => {
                return None;
            },
        };
        self.take(checkpoint)
    }

    /// Takes in every watermark of `batch`, in order. The batch need not be
    /// sorted, and may repeat checkpoints: of several watermarks for one
    /// checkpoint the first to arrive stays.
    pub fn extend(&mut self, batch: Vec<CommitterWatermark>)
        requires
            old(self).wf(),
        ensures
            final(self).wf(),
            final(self)@ == extended(old(self)@, views(batch@)),
    {
        let ghost arrived = views(batch@);
        for w in items: batch
            invariant
                self.wf(),
                views(items.seq()) == arrived,
                self@ == extended(old(self)@, arrived.take(items.index())),
        {
            proof {
                let i = items.index();
                assert(arrived.take(i + 1).drop_last() =~= arrived.take(i));
                assert(arrived.take(i + 1).last() == w@);
            }
            self.insert(w);
        }
        proof {
            assert(arrived.take(arrived.len() as int) =~= arrived);
        }
    }

    /// The model of a well-formed set has no more entries than a `usize`
    /// counts.
    proof fn lemma_len_fits(&self)
        requires
            self.wf(),
        ensures
            self@.len() <= usize::MAX,
    {
        self.lemma_view();
        assert(self.by_checkpoint.len() == self.by_checkpoint@.len());
    }

    /// Runs one contiguity scan: moves `current` to the end of the unbroken
    /// run of pending checkpoints that follows it, and removes from the set
    /// everything up to that end.
    ///
    /// A pending watermark at or below `current` is discarded and counted as
    /// stale. The scan stops at the first gap, and what lies beyond it stays
    /// pending.
    pub fn advance(&mut self, current: &mut CommitterWatermark) -> (r: Progress)
        requires
            old(self).wf(),
        ensures
            final(self).wf(),
            final(current)@ == scan(old(current)@, old(self)@).watermark,
            final(self)@ == scan(old(current)@, old(self)@).pending,
            r.advanced == scan(old(current)@, old(self)@).advanced,
            r.stale == scan(old(current)@, old(self)@).stale,
            r.regressed == scan(old(current)@, old(self)@).regressed,
    {
        let ghost before = self@;
        let ghost held = current@;
        let ghost from = held.checkpoint_hi_inclusive;
        proof {
            self.lemma_wf_keyed();
            self.lemma_len_fits();
            assert(before.dom().filter(|k: int| k <= from && !before.contains_key(k)) =~= Set::<
                int,
            >::empty());
        }
        let mut advanced = false;
        let mut stale: usize = 0;
        let mut regressed: usize = 0;
        loop
            invariant
                self.wf(),
                keyed_by_checkpoint(before),
                before.len() <= usize::MAX,
                from == held.checkpoint_hi_inclusive,
                from <= current@.checkpoint_hi_inclusive,
                advanced == (current@.checkpoint_hi_inclusive > from),
                advanced ==> current@ == before[current@.checkpoint_hi_inclusive],
                !advanced ==> current@ == held,
                forall|k: int|
                    from < k <= current@.checkpoint_hi_inclusive ==> #[trigger] before.contains_key(
                        k,
                    ),
                forall|k: int| #[trigger]
                    self@.contains_key(k) ==> before.contains_key(k) && before[k] == self@[k],
                forall|k: int| #[trigger]
                    before.contains_key(k) && k > current@.checkpoint_hi_inclusive
                        ==> self@.contains_key(k),
                advanced ==> forall|k: int| #[trigger]
                    self@.contains_key(k) ==> k > current@.checkpoint_hi_inclusive,
                stale == before.dom().filter(
                    |k: int| k <= from && !self@.contains_key(k),
                ).len(),
                regressed == regressions(held, before, current@.checkpoint_hi_inclusive),
                regressed <= current@.checkpoint_hi_inclusive - from,
                stale + (current@.checkpoint_hi_inclusive - from) + self@.len() == before.len(),
            ensures
                self.wf(),
                run_ends_at(before.dom(), from, current@.checkpoint_hi_inclusive),
                advanced == (current@.checkpoint_hi_inclusive > from),
                advanced ==> current@ == before[current@.checkpoint_hi_inclusive],
                !advanced ==> current@ == held,
                self@ == before.restrict(Set::new(|k: int| k > current@.checkpoint_hi_inclusive)),
                stale == before.dom().filter(|k: int| k <= from).len(),
                regressed == regressions(held, before, current@.checkpoint_hi_inclusive),
            decreases self@.len(),
        {
            proof {
                self.lemma_wf_keyed();
            }
            let ghost here = self@;
            let ghost removed = before.dom().filter(|k: int| k <= from && !here.contains_key(k));
            let (position, checkpoint) = match self.first() {
                Some(pending) => (current.next_cmp(pending), pending.checkpoint_hi_inclusive),
                None => {
                    proof {
                        assert(here.dom() =~= Set::<int>::empty());
                        assert(here =~= before.restrict(
                            Set::new(|k: int| k > current@.checkpoint_hi_inclusive),
                        ));
                        assert(removed =~= before.dom().filter(|k: int| k <= from));
                    }
                    break ;
                },
            };
            match position {
                Position::Future => {
                    proof {
                        assert(here =~= before.restrict(
                            Set::new(|k: int| k > current@.checkpoint_hi_inclusive),
                        ));
                        assert(removed =~= before.dom().filter(|k: int| k <= from));
                    }
                    break ;
                },
                Position::Past => {
                    let discarded = self.take(checkpoint);
                    proof {
                        let now = before.dom().filter(|k: int| k <= from && !self@.contains_key(k));
                        assert(now =~= removed.insert(discarded->0@.checkpoint_hi_inclusive));
                        assert(removed.finite());
                        vstd::set_lib::lemma_len_subset(now, before.dom());
                    }
                    stale = stale + 1;
                },
                Position::Next => {
                    if let Some(next) = self.take(checkpoint) {
                        proof {
                            let now = before.dom().filter(
                                |k: int| k <= from && !self@.contains_key(k),
                            );
                            assert(now =~= removed);
                        }
                        if next.falls_behind(current) {
                            regressed = regressed + 1;
                        }
                        *current = next;
                        advanced = true;
                    }
                },
            }
        }
        proof {
            lemma_run_end_is(before.dom(), from, current@.checkpoint_hi_inclusive);
        }
        Progress { advanced, stale, regressed }
    }
}

} // verus!
