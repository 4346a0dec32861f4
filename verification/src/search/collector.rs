//! Range-bucket aggregation over packed 16-bit features, with counts kept
//! in range vectors.

use vstd::prelude::*;
use core::ops::RangeInclusive;
use crate::error::MergeError;
use crate::feature::collector::{
    bumped_row, children_fit, copy_request, counted_doc, counted_entry, counted_ranges, counts,
    empty_fruit, first_uneven, fits_request, fruit_fits, lemma_children_fit_prefix, lemma_hit_fits,
    lemma_counted_step, lemma_merge_stops, merge_outcome, merge_ranges, mergeable,
    merged_before, merged_children, merged_counts, merged_fruit, merged_slot, range_views,
    request_even, request_view, row_fits, slot_even, slot_or_zeros, sums_fit, zero_row, zeros,
    evens_before,
    RequestView,
};
use crate::feature::vector::{lemma_slot_bounds, read_slot, slots};

verus! {

/// The type of every feature and of every count.
pub type FeatureValue = u16;

/// For each wanted feature, its position and the ranges to count it in.
pub type AggregationRequest = Vec<(usize, Vec<RangeInclusive<FeatureValue>>)>;

/// The value that marks a feature as absent from a document.
pub const UNSET: FeatureValue = 0xFFFF;

/// The counts of one feature, one per requested range.
#[derive(Clone, Debug, PartialEq)]
pub struct RangeVec(pub Vec<FeatureValue>);

/// One slot per feature: nothing where no document fell into any range of
/// the feature, else the feature's counts.
#[derive(Debug)]
pub struct FeatureRanges(pub Vec<Option<RangeVec>>);

/// The slots of `ranges` as numbers.
pub open spec fn slot_counts(ranges: Seq<Option<RangeVec>>) -> Seq<Option<Seq<int>>> {
    Seq::new(
        ranges.len(),
        |i: int|
            match ranges[i] {
                Some(row) => Some(counts::<u16>(row.0@)),
                None => None,
            },
    )
}

/// Every slot that a merge of `b` into `a` fills for the first time gets at
/// least one count: in two results over as many features, each slot that
/// is empty in `a` and filled in `b`, up to the first slot that cannot be
/// summed.
pub open spec fn fills(a: Seq<Option<Seq<int>>>, b: Seq<Option<Seq<int>>>) -> bool {
    forall|i: int|
        0 <= i < a.len() && a.len() == b.len() && evens_before(a, b, i) && (#[trigger] a[i]) is None
            && b[i] is Some ==> b[i]->0.len() != 0
}

/// While `children` are summed into `acc`, every slot that is filled for
/// the first time gets at least one count.
pub open spec fn children_fill(
    acc: Seq<Option<Seq<int>>>,
    children: Seq<Seq<Option<Seq<int>>>>,
) -> bool
    decreases children.len(),
{
    if children.len() == 0 {
        true
    } else {
        &&& children_fill(acc, children.drop_last())
        &&& match merged_children(acc, children.drop_last()) {
            Ok(sum) => fills(sum, children.last()),
            Err(_) => true,
        }
    }
}

/// What holds while all of `children` are summed holds while the first
/// `upto` are.
pub proof fn lemma_children_fill_prefix(
    acc: Seq<Option<Seq<int>>>,
    children: Seq<Seq<Option<Seq<int>>>>,
    upto: int,
)
    requires
        0 <= upto <= children.len(),
        children_fill(acc, children),
    ensures
        children_fill(acc, children.take(upto)),
    decreases children.len(),
{
    if upto == children.len() {
        assert(children.take(upto) =~= children);
    } else {
        assert(children.drop_last().take(upto) =~= children.take(upto));
        lemma_children_fill_prefix(acc, children.drop_last(), upto);
    }
}

/// The results of `children` as numbers.
pub open spec fn results_of(children: Seq<FeatureRanges>) -> Seq<Seq<Option<Seq<int>>>> {
    Seq::new(children.len(), |c: int| children[c].result())
}

impl RangeVec {
    /// A row of `size` zero counts.
    pub fn new(size: usize) -> (row: RangeVec)
        requires
            size != 0,
        ensures
            row.0@.len() == size,
            counts::<u16>(row.0@) == zeros(size as nat),
    {
        RangeVec(zero_row::<u16>(size))
    }

    /// Adds the counts of `other`, element by element. A row of another
    /// length is refused and nothing changes.
    pub fn merge(&mut self, other: &RangeVec) -> (merged: Result<(), MergeError>)
        requires
            old(self).0@.len() == other.0@.len() ==> row_fits::<u16>(
                merged_counts(counts::<u16>(old(self).0@), counts::<u16>(other.0@)),
            ),
        ensures
            match merged {
                Ok(_) => {
                    &&& old(self).0@.len() == other.0@.len()
                    &&& counts::<u16>(final(self).0@) == merged_counts(
                        counts::<u16>(old(self).0@),
                        counts::<u16>(other.0@),
                    )
                },
                Err(e) => {
                    &&& e == MergeError::UnevenRangeVecs
                    &&& old(self).0@.len() != other.0@.len()
                    &&& final(self).0@ == old(self).0@
                },
            },
    {
        merge_ranges::<u16>(&mut self.0, other.0.as_slice())
    }

    /// How many counts the row has.
    pub fn len(&self) -> (n: usize)
        ensures
            n == self.0@.len(),
    {
        self.0.len()
    }

    /// The count at `idx`.
    pub fn get(&self, idx: usize) -> (count: FeatureValue)
        requires
            idx < self.0@.len(),
        ensures
            count == self.0@[idx as int],
    {
        self.0[idx]
    }

    /// One more hit at `idx`.
    pub fn inc(&mut self, idx: usize)
        requires
            idx < old(self).0@.len(),
            old(self).0@[idx as int] < u16::MAX,
        ensures
            final(self).0@ == old(self).0@.update(idx as int, (old(self).0@[idx as int] + 1) as u16),
    {
        let bumped = self.0[idx] + 1;
        self.0.set(idx, bumped);
    }

    /// The counts.
    pub fn inner(&self) -> (counts: &Vec<FeatureValue>)
        ensures
            counts@ == self.0@,
    {
        &self.0
    }
}

impl FeatureRanges {
    /// The slots as numbers.
    pub open spec fn result(self) -> Seq<Option<Seq<int>>> {
        slot_counts(self.0@)
    }

    /// Where a merge of `other` fills a slot that is empty here, it fills
    /// it with at least one count.
    pub open spec fn takes(self, other: FeatureRanges) -> bool {
        fills(self.result(), other.result())
    }

    /// Adds `other`, slot by slot: an empty slot takes the other side's
    /// counts, a filled one has them added. Results over different numbers
    /// of features are refused untouched. A slot with different numbers of
    /// counts stops the merge there: the slots before it are summed, the
    /// others are as they were.
    pub fn merge(&mut self, other: &FeatureRanges) -> (merged: Result<(), MergeError>)
        requires
            sums_fit::<u16>(old(self).result(), other.result()),
            old(self).takes(*other),
        ensures
            final(self).0@.len() == old(self).0@.len(),
            match merged {
                Ok(_) => {
                    &&& mergeable(old(self).result(), other.result())
                    &&& final(self).result() == merged_fruit(old(self).result(), other.result())
                },
                Err(MergeError::UnevenFeatureRanges) => {
                    &&& old(self).0@.len() != other.0@.len()
                    &&& final(self).0@ == old(self).0@
                },
                Err(MergeError::UnevenRangeVecs) => {
                    &&& old(self).0@.len() == other.0@.len()
                    &&& exists|k: int|
                        {
                            &&& #[trigger] first_uneven(old(self).result(), other.result(), k)
                            &&& final(self).result() == merged_before(
                                old(self).result(),
                                other.result(),
                                k,
                            )
                        }
                },
            },
    {
        if self.0.len() != other.len() {
            return Err(MergeError::UnevenFeatureRanges);
        }
        let n = self.0.len();
        let ghost a = old(self).result();
        let ghost b = other.result();
        let mut i: usize = 0;
        while i < n
            invariant
                i <= n,
                n == other.0@.len(),
                self.0@.len() == n,
                old(self).0@.len() == n,
                a == old(self).result(),
                b == other.result(),
                sums_fit::<u16>(a, b),
                old(self).takes(*other),
                forall|j: int| i <= j < n ==> self.0@[j] == old(self).0@[j],
                evens_before(a, b, i as int),
                self.result() == merged_before(a, b, i as int),
            decreases n - i,
        {
            let ghost before = self.0@;
            let ghost before_counts = self.result();
            assert(before_counts[i as int] == a[i as int]);
            match other.get(i) {
                Some(other_rv) => {
                    assert(b[i as int] == Some(counts::<u16>(other_rv.0@)));
                    match &mut self.0[i] {
                        Some(current) => {
                            assert(a[i as int] == Some(counts::<u16>(current.0@)));
                            if current.len() != other_rv.len() {
                                assert(first_uneven(a, b, i as int));
                                return Err(MergeError::UnevenRangeVecs);
                            }
                            assert(slot_even(a[i as int], b[i as int]));
                            assert(evens_before(a, b, i + 1));
                            let r = current.merge(other_rv);
                        },
                        None => {
                            assert(a[i as int] is None);
                            assert(other_rv.0@.len() != 0);
                            let mut fresh = RangeVec::new(other_rv.len());
                            assert(row_fits::<u16>(
                                merged_counts(counts::<u16>(fresh.0@), counts::<u16>(other_rv.0@)),
                            )) by {
                                assert forall|k: int|
                                    0 <= k < fresh.0@.len() implies 0 <= #[trigger] merged_counts(
                                    counts::<u16>(fresh.0@),
                                    counts::<u16>(other_rv.0@),
                                )[k] <= u16::MAX by {
                                    assert(counts::<u16>(fresh.0@)[k] == 0);
                                }
                            }
                            let r = fresh.merge(other_rv);
                            assert(counts::<u16>(fresh.0@) =~= counts::<u16>(other_rv.0@));
                            self.0.set(i, Some(fresh));
                        },
                    }
                },
                None => {},
            }
            proof {
                assert(self.0@.len() == n);
                assert(forall|j: int| 0 <= j < n && j != i ==> self.0@[j] == before[j]);
                assert(self.result()[i as int] == merged_slot(a[i as int], b[i as int]));
                assert(slot_even(a[i as int], b[i as int]));
                assert forall|j: int| 0 <= j < n implies self.result()[j] == merged_before(
                    a,
                    b,
                    i + 1,
                )[j] by {
                    if j != i {
                        assert(self.result()[j] == before_counts[j]);
                    }
                }
                assert(self.result() =~= merged_before(a, b, i + 1));
            }
            i += 1;
        }
        assert(merged_before(a, b, n as int) =~= merged_fruit(a, b));
        Ok(())
    }

    /// How many features the result covers.
    pub fn len(&self) -> (n: usize)
        ensures
            n == self.0@.len(),
    {
        self.0.len()
    }

    /// `size` empty slots.
    pub fn new(size: usize) -> (ranges: FeatureRanges)
        requires
            size != 0,
        ensures
            ranges.0@.len() == size,
            ranges.result() == empty_fruit(size as nat),
    {
        let mut slots: Vec<Option<RangeVec>> = Vec::with_capacity(size);
        let mut i: usize = 0;
        while i < size
            invariant
                i <= size,
                slots@.len() == i,
                forall|j: int| 0 <= j < i ==> (#[trigger] slots@[j]) is None,
            decreases size - i,
        {
            slots.push(None);
            i += 1;
        }
        let ranges = FeatureRanges(slots);
        assert(ranges.result() =~= empty_fruit(size as nat));
        ranges
    }

    /// The slot of feature `idx`.
    pub fn get(&self, idx: usize) -> (slot: &Option<RangeVec>)
        requires
            idx < self.0@.len(),
        ensures
            *slot == self.0@[idx as int],
    {
        &self.0[idx]
    }

    /// The slot of feature `idx`, to be changed; nothing where `idx` is past
    /// the last feature.
    pub fn get_mut(&mut self, idx: usize) -> (slot: Option<&mut Option<RangeVec>>)
        ensures
            match slot {
                Some(place) => {
                    &&& idx < old(self).0@.len()
                    &&& *place == old(self).0@[idx as int]
                    &&& final(self).0@ == old(self).0@.update(idx as int, *final(place))
                },
                None => idx >= old(self).0@.len() && final(self).0@ == old(self).0@,
            },
    {
        if idx < self.0.len() {
            Some(&mut self.0[idx])
        } else {
            None
        }
    }
}

/// Counts, for the documents of one segment, how many fall into each
/// requested range of each requested feature.
pub struct FeatureSegmentCollector {
    agg: FeatureRanges,
    wanted: AggregationRequest,
}

impl FeatureSegmentCollector {
    /// The counts so far.
    pub closed spec fn result(self) -> Seq<Option<Seq<int>>> {
        self.agg.result()
    }

    /// What is being counted.
    pub closed spec fn request(self) -> RequestView<u16> {
        request_view(self.wanted@)
    }

    /// The request is even and every filled slot has one count per
    /// requested range.
    pub closed spec fn wf(self) -> bool {
        &&& request_even(request_view(self.wanted@))
        &&& fits_request(self.agg.result(), request_view(self.wanted@))
    }

    /// Counts one document, given as its packed feature vector. Each entry
    /// of the request is taken in turn: where the document has the feature,
    /// every range that holds its value gets one more hit, and the
    /// feature's slot is filled on its first hit.
    pub fn collect(&mut self, data: &[u8])
        requires
            old(self).wf(),
            data@.len() == old(self).result().len() * 2,
            fruit_fits::<u16>(
                counted_doc(
                    old(self).result(),
                    old(self).request(),
                    slots::<u16>(data@, Some(UNSET), old(self).result().len()),
                ),
            ),
        ensures
            final(self).wf(),
            final(self).request() == old(self).request(),
            final(self).result() == counted_doc(
                old(self).result(),
                old(self).request(),
                slots::<u16>(data@, Some(UNSET), old(self).result().len()),
            ),
    {
        let n = self.agg.len();
        let entries = self.wanted.len();
        let ghost wanted = request_view(self.wanted@);
        let ghost start = self.agg.result();
        let ghost doc = slots::<u16>(data@, Some(UNSET), n as nat);
        let mut e: usize = 0;
        while e < entries
            invariant
                e <= entries,
                entries == self.wanted@.len(),
                n == self.agg.0@.len(),
                data@.len() == n * 2,
                wanted == request_view(self.wanted@),
                self.wanted == old(self).wanted,
                doc == slots::<u16>(data@, Some(UNSET), n as nat),
                request_even(wanted),
                fits_request(start, wanted),
                start.len() == n,
                fruit_fits::<u16>(counted_doc(start, wanted, doc)),
                fits_request(self.agg.result(), wanted),
                self.agg.result() == counted_doc(start, wanted.take(e as int), doc),
            decreases entries - e,
        {
            let feat = self.wanted[e].0;
            let ghost ranges = wanted[e as int].1;
            let ghost at_entry = self.agg.result();
            proof {
                assert(wanted.take(e + 1).drop_last() =~= wanted.take(e as int));
                assert(wanted.take(e + 1).last() == wanted[e as int]);
                assert(ranges == range_views(self.wanted@[e as int].1@));
            }
            if feat < n {
                proof {
                    assert(wanted.take(e as int) == wanted.subrange(0, e as int));
                    lemma_slot_bounds(feat as int, n as int, 2);
                }
                let opt = read_slot::<u16>(data, Some(UNSET), feat);
                if let Some(value) = opt {
                    let count = self.wanted[e].1.len();
                    let mut idx: usize = 0;
                    while idx < count
                        invariant
                            idx <= count,
                            e < entries,
                            feat < n,
                            entries == self.wanted@.len(),
                            n == self.agg.0@.len(),
                            count == ranges.len(),
                            count == self.wanted@[e as int].1@.len(),
                            wanted == request_view(self.wanted@),
                            ranges == wanted[e as int].1,
                            feat == wanted[e as int].0,
                            ranges == range_views(self.wanted@[e as int].1@),
                            self.wanted == old(self).wanted,
                            request_even(wanted),
                            fits_request(at_entry, wanted),
                            fits_request(self.agg.result(), wanted),
                            at_entry.len() == n,
                            fits_request(start, wanted),
                            start.len() == n,
                            fruit_fits::<u16>(counted_doc(start, wanted, doc)),
                            at_entry == counted_doc(start, wanted.take(e as int), doc),
                            doc.len() == n,
                            doc[feat as int] == Some(value),
                            self.agg.result() == counted_ranges(
                                at_entry,
                                feat as int,
                                ranges,
                                value,
                                idx as int,
                            ),
                        decreases count - idx,
                    {
                        let ghost before = self.agg.result();
                        let ghost before_agg = self.agg.0@;
                        let inside = self.wanted[e].1[idx].contains(&value);
                        proof {
                            if inside {
                                let filled = slot_or_zeros(before[feat as int], ranges.len());
                                lemma_hit_fits::<u16>(start, wanted, e as int, doc, idx as int);
                                lemma_counted_step::<u16>(
                                    at_entry,
                                    feat as int,
                                    ranges,
                                    value,
                                    idx as int,
                                    before,
                                    before.update(
                                        feat as int,
                                        Some(bumped_row(filled, idx as int)),
                                    ),
                                );
                                assert(filled[idx as int] + 1 <= u16::MAX);
                            }
                        }
                        if inside {
                            match &mut self.agg.0[feat] {
                                Some(row) => {
                                    assert(before[feat as int] == Some(counts::<u16>(row.0@)));
                                    assert(wanted[e as int].0 == feat);
                                    assert(row.0@.len() == count);
                                    assert(before[feat as int]->0[idx as int] == row.0@[idx as int]);
                                    row.inc(idx);
                                },
                                None => {
                                    let mut row = RangeVec::new(count);
                                    assert(counts::<u16>(row.0@)[idx as int] == 0);
                                    row.inc(idx);
                                    self.agg.0.set(feat, Some(row));
                                },
                            }
                        }
                        proof {
                            let after = self.agg.result();
                            assert(forall|j: int|
                                0 <= j < n && j != feat ==> self.agg.0@[j] == before_agg[j]);
                            if inside {
                                let filled = slot_or_zeros(before[feat as int], ranges.len());
                                assert(after[feat as int] is Some);
                                assert(after[feat as int]->0 =~= bumped_row(filled, idx as int));
                                assert(after =~= before.update(
                                    feat as int,
                                    Some(bumped_row(filled, idx as int)),
                                ));
                            } else {
                                assert(after =~= before);
                            }
                            lemma_counted_step::<u16>(
                                at_entry,
                                feat as int,
                                ranges,
                                value,
                                idx as int,
                                before,
                                after,
                            );
                            assert(fits_request(after, wanted)) by {
                                assert forall|x: int|
                                    0 <= x < wanted.len() && (#[trigger] wanted[x]).0 < after.len()
                                        && after[wanted[x].0 as int] is Some implies after[wanted[x].0 as int]->0.len()
                                    == wanted[x].1.len() by {
                                    if wanted[x].0 == feat {
                                        assert(wanted[x].1.len() == wanted[e as int].1.len());
                                    } else {
                                        assert(after[wanted[x].0 as int] == before[wanted[x].0 as int]);
                                    }
                                }
                            }
                        }
                        idx += 1;
                    }
                    proof {
                        assert(self.agg.result() == counted_entry(at_entry, feat, ranges, doc));
                    }
                } else {
                    assert(self.agg.result() == counted_entry(at_entry, feat, ranges, doc));
                }
            } else {
                assert(self.agg.result() == counted_entry(at_entry, feat, ranges, doc));
            }
            e += 1;
        }
        assert(wanted.take(entries as int) =~= wanted);
    }

    /// Hands over the counts of the segment.
    pub fn harvest(self) -> (result: FeatureRanges)
        ensures
            result.result() == self.result(),
    {
        self.agg
    }
}

/// Aggregates hit counts per requested range over the segments of an index.
pub struct FeatureCollector {
    agg: FeatureRanges,
    wanted: AggregationRequest,
}

impl FeatureCollector {
    /// How many features a document has.
    pub closed spec fn num_features(self) -> nat {
        self.agg.0@.len()
    }

    /// What is being counted.
    pub closed spec fn request(self) -> RequestView<u16> {
        request_view(self.wanted@)
    }

    /// The request is even and the collector's own counts are empty.
    pub closed spec fn wf(self) -> bool {
        &&& request_even(request_view(self.wanted@))
        &&& self.agg.0@.len() != 0
        &&& self.agg.result() == empty_fruit(self.agg.0@.len())
    }

    /// A collector for documents of `num_features` features that counts what
    /// `wanted` asks for.
    pub fn for_field(num_features: usize, wanted: &AggregationRequest) -> (collector:
        FeatureCollector)
        requires
            num_features != 0,
            request_even(request_view(wanted@)),
        ensures
            collector.wf(),
            collector.num_features() == num_features,
            collector.request() == request_view(wanted@),
    {
        FeatureCollector {
            wanted: copy_request::<u16>(wanted.as_slice()),
            agg: FeatureRanges::new(num_features),
        }
    }

    /// A collector with empty counts for one segment.
    pub fn for_segment(&self) -> (child: FeatureSegmentCollector)
        requires
            self.wf(),
        ensures
            child.wf(),
            child.result() == empty_fruit(self.num_features()),
            child.request() == self.request(),
    {
        FeatureSegmentCollector {
            agg: FeatureRanges::new(self.agg.len()),
            wanted: copy_request::<u16>(self.wanted.as_slice()),
        }
    }

    /// Counting needs no relevance score.
    pub fn requires_scoring(&self) -> (needed: bool)
        ensures
            !needed,
    {
        false
    }

    /// Sums the results of the segments, first to last, starting from empty
    /// counts. Stops at the first result that cannot be summed.
    pub fn merge_fruits(&self, children: Vec<FeatureRanges>) -> (merged: Result<
        FeatureRanges,
        MergeError,
    >)
        requires
            self.wf(),
            children_fit::<u16>(empty_fruit(self.num_features()), results_of(children@)),
            children_fill(empty_fruit(self.num_features()), results_of(children@)),
        ensures
            match merged {
                Ok(sum) => merged_children(
                    empty_fruit(self.num_features()),
                    results_of(children@),
                ) == Ok::<Seq<Option<Seq<int>>>, MergeError>(sum.result()),
                Err(e) => merged_children(empty_fruit(self.num_features()), results_of(children@))
                    == Err::<Seq<Option<Seq<int>>>, MergeError>(e),
            },
    {
        let n = self.agg.len();
        let ghost start = empty_fruit(n as nat);
        let ghost all = results_of(children@);
        let mut merged = FeatureRanges::new(n);
        proof {
            assert(sums_fit::<u16>(merged.result(), self.agg.result()));
            assert(mergeable(start, start));
            assert(merged_fruit(start, start) =~= start);
            assert(merged.takes(self.agg));
        }
        match merged.merge(&self.agg) {
            Ok(_) => {},
            Err(e) => {
                proof {
                    if e == MergeError::UnevenRangeVecs {
                        let k = choose|k: int| #[trigger] first_uneven(start, start, k);
                        assert(slot_even(start[k], start[k]));
                    }
                    assert(false);
                }
                return Err(e);
            },
        }
        let mut c: usize = 0;
        while c < children.len()
            invariant
                c <= children@.len(),
                n == self.agg.0@.len(),
                all == results_of(children@),
                start == empty_fruit(n as nat),
                children_fit::<u16>(start, all),
                children_fill(start, all),
                merged_children(start, all.take(c as int)) == Ok::<
                    Seq<Option<Seq<int>>>,
                    MergeError,
                >(merged.result()),
            decreases children@.len() - c,
        {
            proof {
                assert(all.take(c + 1).drop_last() =~= all.take(c as int));
                assert(all.take(c + 1).last() == children@[c as int].result());
                lemma_children_fit_prefix::<u16>(start, all, c + 1);
                lemma_children_fill_prefix(start, all, c + 1);
            }
            let ghost sum = merged.result();
            match merged.merge(&children[c]) {
                Ok(_) => {},
                Err(e) => {
                    proof {
                        let next = children@[c as int].result();
                        if e == MergeError::UnevenRangeVecs {
                            let k = choose|k: int| #[trigger] first_uneven(sum, next, k);
                            assert(!slot_even(sum[k], next[k]));
                            assert(!mergeable(sum, next));
                        }
                        assert(sum.len() == merged.0@.len());
                        assert(next.len() == children@[c as int].0@.len());
                        assert(merge_outcome(sum, next) == Err::<Seq<Option<Seq<int>>>, MergeError>(e));
                        assert(merged_children(start, all.take(c + 1)) == merge_outcome(sum, next));
                        lemma_merge_stops(start, all, c + 1, e);
                    }
                    return Err(e);
                },
            }
            c += 1;
        }
        assert(all.take(c as int) =~= all);
        Ok(merged)
    }
}

} // verus!
