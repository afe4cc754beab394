//! Garbage collection: the strategies that pick segments to rewrite.

pub mod report;

use crate::blob_cache::BlobCache;
use crate::compression::Compressor;
use crate::id::SegmentId;
use crate::value_log::ValueLog;
use crate::manifest::clamp;
use crate::manifest::space_amp_of;
use crate::manifest::stale_bytes_of;
use crate::manifest::total_bytes_of;
use crate::manifest::SegmentManifest;
use crate::ratio::mul_wide;
use crate::ratio::Ratio;
use crate::segment::SegmentView;
use vstd::prelude::*;

verus! {

/// GC strategy
pub trait GcStrategy<BC: BlobCache, C: Compressor + Clone> {
    /// Picks segments based on a predicate.
    fn pick(&self, value_log: &ValueLog<BC, C>) -> Vec<SegmentId>
        requires
            value_log.wf(),
    ;
}

/// The IDs of the segments whose share of stale items is above
/// `threshold`, in their order.
pub open spec fn stale_above(segs: Seq<SegmentView>, threshold: Ratio) -> Seq<SegmentId>
    decreases segs.len(),
{
    if segs.len() == 0 {
        Seq::empty()
    } else {
        let before = stale_above(segs.drop_last(), threshold);
        if segs.last().stale_ratio().gt(threshold) {
            before.push(segs.last().id)
        } else {
            before
        }
    }
}

/// Picks segments that have a certain percentage of stale blobs
pub struct StaleThresholdStrategy(Ratio);

impl StaleThresholdStrategy {
    /// The share above which a segment is picked.
    pub closed spec fn threshold(&self) -> Ratio {
        self.0
    }

    /// Creates a new strategy with the given threshold, `num / den`. A
    /// threshold above 1 counts as 1.
    pub fn new(num: u64, den: u64) -> (r: Self)
        requires
            den > 0,
        ensures
            r.threshold() == if num > den {
                Ratio { num: 1, den: 1 }
            } else {
                Ratio { num, den }
            },
    {
        if num > den {
            StaleThresholdStrategy(Ratio::new(1, 1))
        } else {
            StaleThresholdStrategy(Ratio::new(num, den))
        }
    }
}

impl<BC: BlobCache, C: Compressor + Clone> GcStrategy<BC, C> for StaleThresholdStrategy {
    /// Picks all segments whose share of stale items is above the
    /// threshold.
    fn pick(&self, value_log: &ValueLog<BC, C>) -> (r: Vec<SegmentId>)
        ensures
            r@ == stale_above(value_log.manifest@, self.threshold()),
    {
        self.select(&value_log.manifest)
    }
}

impl StaleThresholdStrategy {
    /// Picks all segments of the manifest whose share of stale items is
    /// above the threshold.
    pub fn select(&self, manifest: &SegmentManifest) -> (r: Vec<SegmentId>)
        ensures
            r@ == stale_above(manifest@, self.threshold()),
    {
        let mut picked: Vec<SegmentId> = Vec::new();
        let mut i: usize = 0;
        assert(manifest@.take(0) =~= Seq::<SegmentView>::empty());
        while i < manifest.len()
            invariant
                i <= manifest@.len(),
                picked@ == stale_above(manifest@.take(i as int), self.threshold()),
            decreases manifest@.len() - i,
        {
            assert(manifest@.take(i + 1).drop_last() =~= manifest@.take(i as int));
            let segment = manifest.segment_at(i);
            if segment.stale_ratio().is_gt(&self.0) {
                picked.push(segment.id);
            }
            i = i + 1;
        }
        assert(manifest@.take(i as int) =~= manifest@);
        picked
    }
}

/// A segment that holds stale items, as the space amplification strategy
/// sees it.
#[derive(Clone, Copy, Debug)]
pub struct Candidate {
    /// The ID of the segment
    pub id: SegmentId,
    /// The stale bytes of the segment
    pub stale_bytes: u64,
    /// The share of stale items of the segment
    pub ratio: Ratio,
}

/// The candidate that stands for a segment.
pub open spec fn candidate_of(s: SegmentView) -> Candidate {
    Candidate { id: s.id, stale_bytes: s.gc_stats.stale_bytes, ratio: s.stale_ratio() }
}

/// The segments that hold a stale item, in their order.
pub open spec fn candidates(segs: Seq<SegmentView>) -> Seq<Candidate>
    decreases segs.len(),
{
    if segs.len() == 0 {
        Seq::empty()
    } else {
        let before = candidates(segs.drop_last());
        if segs.last().gc_stats.stale_items > 0 {
            before.push(candidate_of(segs.last()))
        } else {
            before
        }
    }
}

/// `sorted` with `c` behind the last candidate whose share is not below
/// that of `c`.
pub open spec fn insert_sorted(sorted: Seq<Candidate>, c: Candidate) -> Seq<Candidate>
    decreases sorted.len(),
{
    if sorted.len() == 0 {
        seq![c]
    } else if c.ratio.gt(sorted.last().ratio) {
        insert_sorted(sorted.drop_last(), c).push(sorted.last())
    } else {
        sorted.push(c)
    }
}

/// The candidates by their share of stale items, the greatest first;
/// candidates of the same share keep their order.
pub open spec fn by_stale_ratio(cands: Seq<Candidate>) -> Seq<Candidate>
    decreases cands.len(),
{
    if cands.len() == 0 {
        Seq::empty()
    } else {
        insert_sorted(by_stale_ratio(cands.drop_last()), cands.last())
    }
}

/// Whether no candidate stands before one of a greater share.
pub open spec fn descending(cands: Seq<Candidate>) -> bool {
    forall|i: int|
        0 <= i < cands.len() - 1 ==> !(#[trigger] cands[i + 1]).ratio.gt(cands[i].ratio)
}

/// `insert_sorted` puts the candidate at the place `p` behind which every
/// candidate has a smaller share, and before which the last one has not.
pub proof fn lemma_insert_sorted_at(sorted: Seq<Candidate>, c: Candidate, p: int)
    requires
        0 <= p <= sorted.len(),
        forall|i: int| p <= i < sorted.len() ==> c.ratio.gt((#[trigger] sorted[i]).ratio),
        p > 0 ==> !c.ratio.gt(sorted[p - 1].ratio),
    ensures
        insert_sorted(sorted, c) == sorted.insert(p, c),
    decreases sorted.len(),
{
    if sorted.len() == 0 {
        assert(seq![c] =~= sorted.insert(p, c));
    } else if p == sorted.len() {
        assert(sorted.push(c) =~= sorted.insert(p, c));
    } else {
        assert(c.ratio.gt(sorted[sorted.len() - 1].ratio));
        lemma_insert_sorted_at(sorted.drop_last(), c, p);
        assert(sorted.drop_last().insert(p, c).push(sorted.last()) =~= sorted.insert(p, c));
    }
}

/// The sorted candidates are the candidates in another order, and
/// none of them stands before one of a greater share.
pub proof fn lemma_by_stale_ratio(cands: Seq<Candidate>)
    ensures
        by_stale_ratio(cands).to_multiset() == cands.to_multiset(),
        by_stale_ratio(cands).len() == cands.len(),
        descending(by_stale_ratio(cands)),
    decreases cands.len(),
{
    broadcast use vstd::seq_lib::group_to_multiset_ensures;

    if cands.len() > 0 {
        let head = cands.drop_last();
        let c = cands.last();
        lemma_by_stale_ratio(head);
        let sorted = by_stale_ratio(head);
        let p = insertion_place(sorted, c);
        lemma_insertion_place(sorted, c);
        lemma_insert_sorted_at(sorted, c, p);
        let all = sorted.insert(p, c);
        assert(cands =~= head.push(c));
        assert forall|i: int| 0 <= i < all.len() - 1 implies !(#[trigger] all[i + 1]).ratio.gt(
            all[i].ratio,
        ) by {
            if i + 1 < p {
                assert(all[i + 1] == sorted[i + 1] && all[i] == sorted[i]);
            } else if i + 1 == p {
                assert(all[i] == sorted[p - 1]);
            } else if i == p {
                assert(all[i + 1] == sorted[p]);
                assert(c.ratio.gt(sorted[p].ratio));
            } else {
                assert(all[i + 1] == sorted[i] && all[i] == sorted[i - 1]);
                assert(!sorted[i - 1 + 1].ratio.gt(sorted[i - 1].ratio));
            }
        }
    }
}

/// The place at which `insert_sorted` puts a candidate.
pub open spec fn insertion_place(sorted: Seq<Candidate>, c: Candidate) -> int
    decreases sorted.len(),
{
    if sorted.len() == 0 {
        0
    } else if c.ratio.gt(sorted.last().ratio) {
        insertion_place(sorted.drop_last(), c)
    } else {
        sorted.len() as int
    }
}

/// Behind the insertion place every candidate has a smaller share, and
/// the one before it has not.
pub proof fn lemma_insertion_place(sorted: Seq<Candidate>, c: Candidate)
    ensures
        0 <= insertion_place(sorted, c) <= sorted.len(),
        forall|i: int|
            insertion_place(sorted, c) <= i < sorted.len() ==> c.ratio.gt(
                (#[trigger] sorted[i]).ratio,
            ),
        insertion_place(sorted, c) > 0 ==> !c.ratio.gt(
            sorted[insertion_place(sorted, c) - 1].ratio,
        ),
    decreases sorted.len(),
{
    if sorted.len() > 0 && c.ratio.gt(sorted.last().ratio) {
        let head = sorted.drop_last();
        lemma_insertion_place(head, c);
        assert forall|i: int| insertion_place(sorted, c) <= i < sorted.len() implies c.ratio.gt(
            (#[trigger] sorted[i]).ratio,
        ) by {
            if i < head.len() {
                assert(head[i] == sorted[i]);
            }
        }
        if insertion_place(sorted, c) > 0 {
            assert(head[insertion_place(sorted, c) - 1] == sorted[insertion_place(sorted, c) - 1]);
        }
    }
}

/// A difference that stops at 0.
pub open spec fn sub_clamped(a: u64, b: u64) -> u64 {
    if a >= b {
        (a - b) as u64
    } else {
        0
    }
}

/// Whether a value log of `total` bytes, `stale` of them stale, has a
/// space amplification of at most `target`: it has live bytes, and its
/// bytes are at most `target` times the live ones.
pub open spec fn reached(total: u64, stale: u64, target: Ratio) -> bool {
    total > stale && total * target.den <= target.num * (total - stale)
}

/// How many of the candidates are picked, the first one first, until the
/// value log without their stale bytes has reached the target: all of
/// them where it never does.
pub open spec fn picked_count(cands: Seq<Candidate>, total: u64, stale: u64, target: Ratio) -> nat
    decreases cands.len(),
{
    if cands.len() == 0 {
        0
    } else {
        let total_left = sub_clamped(total, cands[0].stale_bytes);
        let stale_left = sub_clamped(stale, cands[0].stale_bytes);
        if reached(total_left, stale_left, target) {
            1
        } else {
            1 + picked_count(cands.skip(1), total_left, stale_left, target)
        }
    }
}

/// What is left of `amount` without the stale bytes of the first `k`
/// candidates.
pub open spec fn left_after(amount: u64, cands: Seq<Candidate>, k: nat) -> u64
    decreases k,
{
    if k == 0 || cands.len() == 0 {
        amount
    } else {
        left_after(sub_clamped(amount, cands[0].stale_bytes), cands.skip(1), (k - 1) as nat)
    }
}

/// The picked candidates are the first ones, and with them picked the
/// target is reached, unless all candidates are picked.
pub proof fn lemma_picked_count(cands: Seq<Candidate>, total: u64, stale: u64, target: Ratio)
    ensures
        picked_count(cands, total, stale, target) <= cands.len(),
        cands.len() > 0 ==> picked_count(cands, total, stale, target) >= 1,
        picked_count(cands, total, stale, target) < cands.len() ==> reached(
            left_after(total, cands, picked_count(cands, total, stale, target)),
            left_after(stale, cands, picked_count(cands, total, stale, target)),
            target,
        ),
    decreases cands.len(),
{
    if cands.len() > 0 {
        let total_left = sub_clamped(total, cands[0].stale_bytes);
        let stale_left = sub_clamped(stale, cands[0].stale_bytes);
        if reached(total_left, stale_left, target) {
            assert(left_after(total, cands, 1) == left_after(total_left, cands.skip(1), 0));
            assert(left_after(stale, cands, 1) == left_after(stale_left, cands.skip(1), 0));
        } else {
            lemma_picked_count(cands.skip(1), total_left, stale_left, target);
        }
    }
}

/// The IDs of some candidates.
pub open spec fn candidate_ids(cands: Seq<Candidate>) -> Seq<SegmentId> {
    cands.map_values(|c: Candidate| c.id)
}

/// The segments that the space amplification strategy picks: none where
/// the space amplification is at most the target; else the segments that
/// hold stale items, by their share of stale items, until the target is
/// reached.
pub open spec fn space_amp_selection(segs: Seq<SegmentView>, target: Ratio) -> Seq<SegmentId> {
    let total = clamp(total_bytes_of(segs));
    let stale = clamp(stale_bytes_of(segs));
    if space_amp_of(total, stale).le(target) {
        Seq::empty()
    } else {
        let sorted = by_stale_ratio(candidates(segs));
        candidate_ids(sorted.take(picked_count(sorted, total, stale, target) as int))
    }
}

/// The segments that the space amplification strategy picks are the
/// first of the candidates by their share of stale items; and the value
/// log without their stale bytes has a space amplification of at most the
/// target, unless every segment that holds a stale item was picked.
pub proof fn lemma_selection_reaches_target(segs: Seq<SegmentView>, target: Ratio)
    ensures
        ({
            let total = clamp(total_bytes_of(segs));
            let stale = clamp(stale_bytes_of(segs));
            let sorted = by_stale_ratio(candidates(segs));
            let count = picked_count(sorted, total, stale, target);
            if space_amp_of(total, stale).le(target) {
                space_amp_selection(segs, target).len() == 0
            } else {
                &&& space_amp_selection(segs, target) == candidate_ids(sorted.take(count as int))
                &&& count <= sorted.len()
                &&& count < sorted.len() ==> reached(
                    left_after(total, sorted, count),
                    left_after(stale, sorted, count),
                    target,
                )
            }
        }),
{
    let total = clamp(total_bytes_of(segs));
    let stale = clamp(stale_bytes_of(segs));
    lemma_picked_count(by_stale_ratio(candidates(segs)), total, stale, target);
}

/// Whether a value log of `total` bytes, `stale` of them stale, has a
/// space amplification of at most `target`.
pub fn is_reached(total: u64, stale: u64, target: &Ratio) -> (r: bool)
    ensures
        r == reached(total, stale, *target),
{
    if total <= stale {
        return false;
    }
    let left: u128 = mul_wide(total, target.den);
    let right: u128 = mul_wide(target.num, total - stale);
    left <= right
}

/// Tries to find a least-effort-selection of segments to merge to reach a certain space amplification
pub struct SpaceAmpStrategy(Ratio);

impl SpaceAmpStrategy {
    /// The space amplification that the strategy aims at.
    pub closed spec fn target(&self) -> Ratio {
        self.0
    }

    /// Creates a new strategy with the given space amp factor, `num / den`,
    /// which is at least 1.
    pub fn new(num: u64, den: u64) -> (r: Self)
        requires
            den > 0,
            num >= den,
        ensures
            r.target() == (Ratio { num, den }),
    {
        SpaceAmpStrategy(Ratio::new(num, den))
    }

    /// The segments of the manifest that hold a stale item, by their share
    /// of stale items, the greatest first.
    fn sorted_candidates(manifest: &SegmentManifest) -> (r: Vec<Candidate>)
        ensures
            r@ == by_stale_ratio(candidates(manifest@)),
    {
        let mut sorted: Vec<Candidate> = Vec::new();
        let mut i: usize = 0;
        assert(manifest@.take(0) =~= Seq::<SegmentView>::empty());
        while i < manifest.len()
            invariant
                i <= manifest@.len(),
                sorted@ == by_stale_ratio(candidates(manifest@.take(i as int))),
            decreases manifest@.len() - i,
        {
            assert(manifest@.take(i + 1).drop_last() =~= manifest@.take(i as int));
            let segment = manifest.segment_at(i);
            if segment.gc_stats.stale_items() > 0 {
                let c = Candidate {
                    id: segment.id,
                    stale_bytes: segment.gc_stats.stale_bytes(),
                    ratio: segment.stale_ratio(),
                };
                let mut p: usize = sorted.len();
                while p > 0 && c.ratio.is_gt(&sorted[p - 1].ratio)
                    invariant
                        p <= sorted@.len(),
                        forall|j: int|
                            p <= j < sorted@.len() ==> c.ratio.gt((#[trigger] sorted@[j]).ratio),
                    decreases p,
                {
                    p = p - 1;
                }
                proof {
                    lemma_insert_sorted_at(sorted@, c, p as int);
                    assert(candidates(manifest@.take(i + 1)).drop_last() =~= candidates(
                        manifest@.take(i as int),
                    ));
                }
                sorted.insert(p, c);
            }
            i = i + 1;
        }
        assert(manifest@.take(i as int) =~= manifest@);
        sorted
    }
}

impl<BC: BlobCache, C: Compressor + Clone> GcStrategy<BC, C> for SpaceAmpStrategy {
    /// Picks no segment where the space amplification is at most the
    /// target. Else it picks segments that hold stale items, those with
    /// the greatest share of stale items first, until the value log
    /// without their stale bytes has reached the target.
    fn pick(&self, value_log: &ValueLog<BC, C>) -> (r: Vec<SegmentId>)
        ensures
            r@ == space_amp_selection(value_log.manifest@, self.target()),
    {
        self.select(&value_log.manifest)
    }
}

impl SpaceAmpStrategy {
    /// Picks segments of the manifest as `pick` does.
    pub fn select(&self, manifest: &SegmentManifest) -> (r: Vec<SegmentId>)
        ensures
            r@ == space_amp_selection(manifest@, self.target()),
    {
        let mut selection: Vec<SegmentId> = Vec::new();
        if manifest.space_amp().is_le(&self.0) {
            return selection;
        }
        let sorted = Self::sorted_candidates(manifest);
        let mut total_bytes: u64 = manifest.total_bytes();
        let mut stale_bytes: u64 = manifest.stale_bytes();
        let ghost total = total_bytes;
        let ghost stale = stale_bytes;
        let ghost count = picked_count(sorted@, total, stale, self.0);
        let mut i: usize = 0;
        let mut done: bool = false;
        assert(sorted@.skip(0) =~= sorted@);
        assert(selection@ =~= candidate_ids(sorted@.take(0)));
        while i < sorted.len() && !done
            invariant
                i <= sorted@.len(),
                selection@ == candidate_ids(sorted@.take(i as int)),
                !done ==> count == i + picked_count(
                    sorted@.skip(i as int),
                    total_bytes,
                    stale_bytes,
                    self.0,
                ),
                done ==> count == i,
            decreases sorted@.len() - i + if done { 0int } else { 1int },
        {
            let c = sorted[i];
            assert(sorted@.skip(i as int)[0] == c);
            assert(sorted@.skip(i as int).skip(1) =~= sorted@.skip(i + 1));
            stale_bytes = stale_bytes.saturating_sub(c.stale_bytes);
            total_bytes = total_bytes.saturating_sub(c.stale_bytes);
            selection.push(c.id);
            assert(selection@ =~= candidate_ids(sorted@.take(i + 1)));
            if is_reached(total_bytes, stale_bytes, &self.0) {
                done = true;
            }
            i = i + 1;
        }
        selection
    }
}

} // verus!
