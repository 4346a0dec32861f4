//! Range-bucket aggregation: for each requested feature, how many documents
//! fall into each requested range.

use vstd::prelude::*;
use core::ops::RangeInclusive;
use vstd::std_specs::range::RangeInclusiveView;
use crate::error::MergeError;
use crate::feature::value::{range_holds, FeatureValue};
use crate::feature::vector::{read_slot, slots};

verus! {

/// For each wanted feature, its position and the ranges to count it in.
pub type AggregationRequest<T> = Vec<(usize, Vec<RangeInclusive<T>>)>;

/// One slot per feature: nothing where no document fell into any range of
/// the feature, else one count per requested range.
pub type FeatureRanges<T> = Vec<Option<Vec<T>>>;

/// The numbers that a row of counters stands for.
pub open spec fn counts<T: FeatureValue>(row: Seq<T>) -> Seq<int> {
    Seq::new(row.len(), |k: int| row[k].as_int())
}

/// An aggregation result as numbers: per feature, nothing or its counts.
pub open spec fn fruit<T: FeatureValue>(ranges: Seq<Option<Vec<T>>>) -> Seq<Option<Seq<int>>> {
    Seq::new(
        ranges.len(),
        |i: int|
            match ranges[i] {
                Some(row) => Some(counts(row@)),
                None => None,
            },
    )
}

/// Element-wise sum of two rows of one length.
pub open spec fn merged_counts(a: Seq<int>, b: Seq<int>) -> Seq<int> {
    Seq::new(a.len(), |k: int| a[k] + b[k])
}

/// The sum of two slots: an empty slot adds nothing.
pub open spec fn merged_slot(a: Option<Seq<int>>, b: Option<Seq<int>>) -> Option<Seq<int>> {
    match (a, b) {
        (None, None) => None,
        (Some(x), None) => Some(x),
        (None, Some(y)) => Some(y),
        (Some(x), Some(y)) => Some(merged_counts(x, y)),
    }
}

/// The slot-wise sum of two results over the same features.
pub open spec fn merged_fruit(a: Seq<Option<Seq<int>>>, b: Seq<Option<Seq<int>>>) -> Seq<
    Option<Seq<int>>,
> {
    Seq::new(a.len(), |i: int| merged_slot(a[i], b[i]))
}

/// Slot `i` can be summed: where both sides are filled, they have as many
/// counts.
pub open spec fn slot_even(a: Option<Seq<int>>, b: Option<Seq<int>>) -> bool {
    a is Some && b is Some ==> a->0.len() == b->0.len()
}

/// Every count of `row` can be held by `T`.
pub open spec fn row_fits<T: FeatureValue>(row: Seq<int>) -> bool {
    forall|k: int| 0 <= k < row.len() ==> T::min_int() <= #[trigger] row[k] <= T::max_int()
}

/// A copy of `src`.
pub fn copy_row<T: FeatureValue>(src: &[T]) -> (row: Vec<T>)
    ensures
        row@ == src@,
{
    let mut row: Vec<T> = Vec::with_capacity(src.len());
    let mut k: usize = 0;
    while k < src.len()
        invariant
            k <= src@.len(),
            row@ == src@.subrange(0, k as int),
        decreases src@.len() - k,
    {
        row.push(src[k]);
        k += 1;
        assert(row@ =~= src@.subrange(0, k as int));
    }
    assert(src@.subrange(0, k as int) =~= src@);
    row
}

/// Adds the counts of `src` to those of `dest`, element by element. Rows of
/// different lengths are refused and `dest` stays as it was.
pub fn merge_ranges<T: FeatureValue>(dest: &mut Vec<T>, src: &[T]) -> (merged: Result<
    (),
    MergeError,
>)
    requires
        old(dest)@.len() == src@.len() ==> row_fits::<T>(
            merged_counts(counts(old(dest)@), counts(src@)),
        ),
    ensures
        match merged {
            Ok(_) => {
                &&& old(dest)@.len() == src@.len()
                &&& counts(final(dest)@) == merged_counts(counts(old(dest)@), counts(src@))
            },
            Err(e) => {
                &&& e == MergeError::UnevenRangeVecs
                &&& old(dest)@.len() != src@.len()
                &&& final(dest)@ == old(dest)@
            },
        },
{
    if dest.len() == src.len() {
        let n = src.len();
        let mut i: usize = 0;
        while i < n
            invariant
                i <= n,
                n == src@.len(),
                dest@.len() == n,
                old(dest)@.len() == n,
                forall|k: int|
                    0 <= k < i ==> (#[trigger] dest@[k]).as_int() == old(dest)@[k].as_int()
                        + src@[k].as_int(),
                forall|k: int| i <= k < n ==> #[trigger] dest@[k] == old(dest)@[k],
                row_fits::<T>(merged_counts(counts(old(dest)@), counts(src@))),
            decreases n - i,
        {
            assert(merged_counts(counts(old(dest)@), counts(src@))[i as int] == old(dest)@[i as int].as_int()
                + src@[i as int].as_int());
            let sum = dest[i].plus(src[i]);
            dest.set(i, sum);
            i += 1;
        }
        assert(counts(dest@) =~= merged_counts(counts(old(dest)@), counts(src@)));
        Ok(())
    } else {
        Err(MergeError::UnevenRangeVecs)
    }
}

/// Whether adding `src` to `dest` stays within what `T` can hold, for rows
/// of one length; rows of different lengths are not added at all.
pub fn rows_fit<T: FeatureValue>(dest: &[T], src: &[T]) -> (fits: bool)
    ensures
        fits == (dest@.len() == src@.len() ==> row_fits::<T>(
            merged_counts(counts(dest@), counts(src@)),
        )),
{
    if dest.len() != src.len() {
        return true;
    }
    let n = dest.len();
    let ghost sums = merged_counts(counts(dest@), counts(src@));
    let mut k: usize = 0;
    while k < n
        invariant
            k <= n,
            n == dest@.len(),
            n == src@.len(),
            sums == merged_counts(counts(dest@), counts(src@)),
            forall|j: int| 0 <= j < k ==> T::min_int() <= #[trigger] sums[j] <= T::max_int(),
        decreases n - k,
    {
        assert(sums[k as int] == dest@[k as int].as_int() + src@[k as int].as_int());
        if !dest[k].can_add(src[k]) {
            return false;
        }
        k += 1;
    }
    true
}

/// Two results can be summed: they cover as many features, and no feature
/// has a different number of counts on the two sides.
pub open spec fn mergeable(a: Seq<Option<Seq<int>>>, b: Seq<Option<Seq<int>>>) -> bool {
    &&& a.len() == b.len()
    &&& forall|i: int| 0 <= i < a.len() ==> slot_even(#[trigger] a[i], b[i])
}

/// The first `upto` slots can be summed.
pub open spec fn evens_before(
    a: Seq<Option<Seq<int>>>,
    b: Seq<Option<Seq<int>>>,
    upto: int,
) -> bool {
    forall|j: int| 0 <= j < upto ==> slot_even(#[trigger] a[j], b[j])
}

/// Every sum that a merge of `b` into `a` takes can be held by `T`: in two
/// results over as many features, the sum of each slot that is filled on
/// both sides, up to the first slot that cannot be summed.
pub open spec fn sums_fit<T: FeatureValue>(
    a: Seq<Option<Seq<int>>>,
    b: Seq<Option<Seq<int>>>,
) -> bool {
    forall|i: int|
        0 <= i < a.len() && a.len() == b.len() && evens_before(a, b, i + 1) && (#[trigger] a[i]) is Some
            && b[i] is Some ==> row_fits::<T>(merged_counts(a[i]->0, b[i]->0))
}

/// The state in which a merge stops at slot `k`: the slots before `k` are
/// summed, `k` and those after it are as they were.
pub open spec fn merged_before(
    a: Seq<Option<Seq<int>>>,
    b: Seq<Option<Seq<int>>>,
    k: int,
) -> Seq<Option<Seq<int>>> {
    Seq::new(
        a.len(),
        |i: int|
            if i < k {
                merged_slot(a[i], b[i])
            } else {
                a[i]
            },
    )
}

/// `k` is the first slot that cannot be summed.
pub open spec fn first_uneven(a: Seq<Option<Seq<int>>>, b: Seq<Option<Seq<int>>>, k: int) -> bool {
    &&& 0 <= k < a.len()
    &&& !slot_even(a[k], b[k])
    &&& forall|i: int| 0 <= i < k ==> slot_even(#[trigger] a[i], b[i])
}

/// Whether every sum that a merge of `src` into `dest` takes can be held
/// by `T`.
pub fn ranges_fit<T: FeatureValue>(dest: &FeatureRanges<T>, src: &[Option<Vec<T>>]) -> (fits: bool)
    ensures
        fits == sums_fit::<T>(fruit(dest@), fruit(src@)),
{
    if dest.len() != src.len() {
        return true;
    }
    let n = dest.len();
    let ghost a = fruit(dest@);
    let ghost b = fruit(src@);
    let mut i: usize = 0;
    while i < n
        invariant
            i <= n,
            n == dest@.len(),
            n == src@.len(),
            a == fruit(dest@),
            b == fruit(src@),
            evens_before(a, b, i as int),
            forall|j: int|
                0 <= j < i && (#[trigger] a[j]) is Some && b[j] is Some ==> row_fits::<T>(
                    merged_counts(a[j]->0, b[j]->0),
                ),
        decreases n - i,
    {
        match (&dest[i], &src[i]) {
            (Some(mine), Some(theirs)) => {
                assert(a[i as int] == Some(counts(mine@)));
                assert(b[i as int] == Some(counts(theirs@)));
                if mine.len() != theirs.len() {
                    assert(!slot_even(a[i as int], b[i as int]));
                    assert forall|x: int|
                        0 <= x < a.len() && a.len() == b.len() && evens_before(a, b, x + 1) && (
                        #[trigger] a[x]) is Some && b[x] is Some implies row_fits::<T>(
                        merged_counts(a[x]->0, b[x]->0),
                    ) by {
                        if x >= i {
                            assert(slot_even(a[i as int], b[i as int]));
                        }
                    }
                    return true;
                }
                assert(slot_even(a[i as int], b[i as int]));
                if !rows_fit(mine.as_slice(), theirs.as_slice()) {
                    assert(evens_before(a, b, i + 1));
                    return false;
                }
            },
            _ => {
                assert(slot_even(a[i as int], b[i as int]));
            },
        }
        i += 1;
    }
    true
}

/// Adds `src` to `dest`, slot by slot: an empty slot of `dest` takes a copy
/// of the other side, a filled one has the other side's counts added.
/// Results over different numbers of features are refused untouched. A slot
/// with different numbers of counts stops the merge there: the slots before
/// it are summed, the others are as they were.
pub fn merge_feature_ranges<T: FeatureValue>(
    dest: &mut FeatureRanges<T>,
    src: &[Option<Vec<T>>],
) -> (merged: Result<(), MergeError>)
    requires
        sums_fit::<T>(fruit(old(dest)@), fruit(src@)),
    ensures
        final(dest)@.len() == old(dest)@.len(),
        match merged {
            Ok(_) => {
                &&& mergeable(fruit(old(dest)@), fruit(src@))
                &&& fruit(final(dest)@) == merged_fruit(fruit(old(dest)@), fruit(src@))
            },
            Err(MergeError::UnevenFeatureRanges) => {
                &&& old(dest)@.len() != src@.len()
                &&& final(dest)@ == old(dest)@
            },
            Err(MergeError::UnevenRangeVecs) => {
                &&& old(dest)@.len() == src@.len()
                &&& exists|k: int|
                    {
                        &&& #[trigger] first_uneven(fruit(old(dest)@), fruit(src@), k)
                        &&& fruit(final(dest)@) == merged_before(
                            fruit(old(dest)@),
                            fruit(src@),
                            k,
                        )
                    }
            },
        },
{
    if dest.len() != src.len() {
        return Err(MergeError::UnevenFeatureRanges);
    }
    let n = dest.len();
    let ghost a = fruit(old(dest)@);
    let ghost b = fruit(src@);
    let mut i: usize = 0;
    while i < n
        invariant
            i <= n,
            n == src@.len(),
            dest@.len() == n,
            old(dest)@.len() == n,
            a == fruit(old(dest)@),
            b == fruit(src@),
            sums_fit::<T>(a, b),
            forall|j: int| 0 <= j < i ==> slot_even(#[trigger] a[j], b[j]),
            fruit(dest@) == merged_before(a, b, i as int),
        decreases n - i,
    {
        let ghost before = dest@;
        assert(fruit(before)[i as int] == a[i as int]);
        match &src[i] {
            Some(ranges) => {
                assert(b[i as int] == Some(counts(ranges@)));
                match &mut dest[i] {
                    Some(current) => {
                        assert(a[i as int] == Some(counts(current@)));
                        if current.len() != ranges.len() {
                            assert(first_uneven(a, b, i as int));
                            return Err(MergeError::UnevenRangeVecs);
                        }
                        assert(slot_even(a[i as int], b[i as int]));
                        assert(evens_before(a, b, i + 1));
                        let r = merge_ranges(current, ranges.as_slice());
                    },
                    None => {
                        dest.set(i, Some(copy_row(ranges.as_slice())));
                    },
                }
            },
            None => {},
        }
        proof {
            assert(dest@.len() == n);
            assert(forall|j: int| 0 <= j < n && j != i ==> dest@[j] == before[j]);
            assert(fruit(dest@)[i as int] == merged_slot(a[i as int], b[i as int]));
            assert forall|j: int| 0 <= j < n implies fruit(dest@)[j] == merged_before(
                a,
                b,
                i + 1,
            )[j] by {
                if j != i {
                    assert(fruit(dest@)[j] == fruit(before)[j]);
                }
            }
            assert(fruit(dest@) =~= merged_before(a, b, i + 1));
        }
        i += 1;
    }
    assert(merged_before(a, b, n as int) =~= merged_fruit(a, b));
    Ok(())
}

/// A request as the bounds it asks for.
pub type RequestView<T> = Seq<(usize, Seq<RangeInclusiveView<T>>)>;

/// The bounds of each range of `ranges`.
pub open spec fn range_views<T: FeatureValue>(ranges: Seq<RangeInclusive<T>>) -> Seq<
    RangeInclusiveView<T>,
> {
    Seq::new(ranges.len(), |k: int| ranges[k]@)
}

/// The features and bounds that `wanted` asks for.
pub open spec fn request_view<T: FeatureValue>(
    wanted: Seq<(usize, Vec<RangeInclusive<T>>)>,
) -> RequestView<T> {
    Seq::new(wanted.len(), |e: int| (wanted[e].0, range_views(wanted[e].1@)))
}

/// Entries of `wanted` that name one feature ask for as many ranges.
pub open spec fn request_even<T: FeatureValue>(wanted: RequestView<T>) -> bool {
    forall|i: int, j: int|
        0 <= i < wanted.len() && 0 <= j < wanted.len() && (#[trigger] wanted[i]).0 == (
        #[trigger] wanted[j]).0 ==> wanted[i].1.len() == wanted[j].1.len()
}

/// A filled slot of `result` has one count per range that `wanted` asks
/// for on that feature.
pub open spec fn fits_request<T: FeatureValue>(
    result: Seq<Option<Seq<int>>>,
    wanted: RequestView<T>,
) -> bool {
    forall|e: int|
        0 <= e < wanted.len() && (#[trigger] wanted[e]).0 < result.len() && result[wanted[e].0 as int] is Some
            ==> result[wanted[e].0 as int]->0.len() == wanted[e].1.len()
}

/// Every count of `result` can grow by `room` and still be held by `T`.
pub open spec fn headroom<T: FeatureValue>(result: Seq<Option<Seq<int>>>, room: int) -> bool {
    &&& room <= T::max_int()
    &&& forall|i: int, k: int|
        0 <= i < result.len() && (#[trigger] result[i]) is Some && 0 <= k < result[i]->0.len()
            ==> 0 <= #[trigger] result[i]->0[k] && result[i]->0[k] + room <= T::max_int()
}

/// A row of `n` zero counts.
pub open spec fn zeros(n: nat) -> Seq<int> {
    Seq::new(n, |k: int| 0int)
}

/// One per range among the first `upto` that holds `v`, zero elsewhere.
pub open spec fn hits_before<T: FeatureValue>(
    ranges: Seq<RangeInclusiveView<T>>,
    v: T,
    upto: int,
) -> Seq<int> {
    Seq::new(
        ranges.len(),
        |k: int|
            if k < upto && range_holds(ranges[k], v) {
                1int
            } else {
                0int
            },
    )
}

/// One per range that holds `v`, zero per range that does not.
pub open spec fn hits<T: FeatureValue>(ranges: Seq<RangeInclusiveView<T>>, v: T) -> Seq<int> {
    hits_before(ranges, v, ranges.len() as int)
}

/// One of the first `upto` ranges holds `v`.
pub open spec fn any_hit_before<T: FeatureValue>(
    ranges: Seq<RangeInclusiveView<T>>,
    v: T,
    upto: int,
) -> bool {
    exists|k: int| 0 <= k < upto && k < ranges.len() && range_holds(#[trigger] ranges[k], v)
}

/// One of the ranges holds `v`.
pub open spec fn any_hit<T: FeatureValue>(ranges: Seq<RangeInclusiveView<T>>, v: T) -> bool {
    any_hit_before(ranges, v, ranges.len() as int)
}

/// `result` after the first `upto` ranges of one request entry have been
/// counted for a document whose feature `feat` is `v`: untouched while no
/// range held `v`, else the slot holds its counts plus the hits.
pub open spec fn counted_ranges<T: FeatureValue>(
    result: Seq<Option<Seq<int>>>,
    feat: int,
    ranges: Seq<RangeInclusiveView<T>>,
    v: T,
    upto: int,
) -> Seq<Option<Seq<int>>> {
    if any_hit_before(ranges, v, upto) {
        let row = match result[feat] {
            Some(r) => r,
            None => zeros(ranges.len()),
        };
        result.update(feat, Some(merged_counts(row, hits_before(ranges, v, upto))))
    } else {
        result
    }
}

/// `result` after one request entry has been counted for a document with
/// the features `doc`. A feature past the last slot, or absent from the
/// document, changes nothing.
pub open spec fn counted_entry<T: FeatureValue>(
    result: Seq<Option<Seq<int>>>,
    feat: usize,
    ranges: Seq<RangeInclusiveView<T>>,
    doc: Seq<Option<T>>,
) -> Seq<Option<Seq<int>>> {
    if feat < result.len() && feat < doc.len() && doc[feat as int] is Some {
        counted_ranges(result, feat as int, ranges, doc[feat as int]->0, ranges.len() as int)
    } else {
        result
    }
}

/// `result` after every entry of `wanted` has been counted, in order, for a
/// document with the features `doc`.
pub open spec fn counted_doc<T: FeatureValue>(
    result: Seq<Option<Seq<int>>>,
    wanted: RequestView<T>,
    doc: Seq<Option<T>>,
) -> Seq<Option<Seq<int>>>
    decreases wanted.len(),
{
    if wanted.len() == 0 {
        result
    } else {
        counted_entry(
            counted_doc(result, wanted.drop_last(), doc),
            wanted.last().0,
            wanted.last().1,
            doc,
        )
    }
}

/// `result` after every document of `docs` has been counted, in order.
pub open spec fn counted_docs<T: FeatureValue>(
    result: Seq<Option<Seq<int>>>,
    wanted: RequestView<T>,
    docs: Seq<Seq<Option<T>>>,
) -> Seq<Option<Seq<int>>>
    decreases docs.len(),
{
    if docs.len() == 0 {
        result
    } else {
        counted_doc(counted_docs(result, wanted, docs.drop_last()), wanted, docs.last())
    }
}

/// The result in which no feature has a count: `n` empty slots.
pub open spec fn empty_fruit(n: nat) -> Seq<Option<Seq<int>>> {
    Seq::new(n, |i: int| None::<Seq<int>>)
}

/// A range with the bounds of `range`.
///
/// Trusted: `Clone::clone` of `core::ops::RangeInclusive`, which copies the
/// two bounds and the flag that says whether the range was iterated to its
/// end.
#[verifier::external_body]
fn clone_range<T: FeatureValue>(range: &RangeInclusive<T>) -> (copy: RangeInclusive<T>)
    ensures
        copy@ == range@,
{
    range.clone()
}

/// A copy of `wanted` that asks for the same features and bounds.
pub fn copy_request<T: FeatureValue>(wanted: &[(usize, Vec<RangeInclusive<T>>)]) -> (copy:
    AggregationRequest<T>)
    ensures
        request_view(copy@) == request_view(wanted@),
{
    let mut copy: AggregationRequest<T> = Vec::with_capacity(wanted.len());
    let mut e: usize = 0;
    while e < wanted.len()
        invariant
            e <= wanted@.len(),
            copy@.len() == e,
            forall|i: int|
                0 <= i < e ==> (#[trigger] copy@[i]).0 == wanted@[i].0 && range_views(copy@[i].1@)
                    == range_views(wanted@[i].1@),
        decreases wanted@.len() - e,
    {
        let ranges = &wanted[e].1;
        let mut row: Vec<RangeInclusive<T>> = Vec::with_capacity(ranges.len());
        let mut k: usize = 0;
        while k < ranges.len()
            invariant
                k <= ranges@.len(),
                row@.len() == k,
                forall|j: int| 0 <= j < k ==> (#[trigger] row@[j])@ == ranges@[j]@,
            decreases ranges@.len() - k,
        {
            row.push(clone_range(&ranges[k]));
            k += 1;
        }
        assert(range_views(row@) =~= range_views(ranges@));
        copy.push((wanted[e].0, row));
        e += 1;
    }
    assert(request_view(copy@) =~= request_view(wanted@));
    copy
}

/// `n` empty slots.
pub fn empty_ranges<T: FeatureValue>(n: usize) -> (ranges: FeatureRanges<T>)
    ensures
        ranges@.len() == n,
        fruit(ranges@) == empty_fruit(n as nat),
{
    let mut ranges: FeatureRanges<T> = Vec::with_capacity(n);
    let mut i: usize = 0;
    while i < n
        invariant
            i <= n,
            ranges@.len() == i,
            forall|j: int| 0 <= j < i ==> (#[trigger] ranges@[j]) is None,
        decreases n - i,
    {
        ranges.push(None);
        i += 1;
    }
    assert(fruit(ranges@) =~= empty_fruit(n as nat));
    ranges
}

/// A row of `n` zero counts.
pub fn zero_row<T: FeatureValue>(n: usize) -> (row: Vec<T>)
    ensures
        counts(row@) == zeros(n as nat),
        row@.len() == n,
{
    let mut row: Vec<T> = Vec::with_capacity(n);
    let mut k: usize = 0;
    while k < n
        invariant
            k <= n,
            row@.len() == k,
            forall|j: int| 0 <= j < k ==> (#[trigger] row@[j]).as_int() == 0,
        decreases n - k,
    {
        row.push(T::zero());
        k += 1;
    }
    assert(counts(row@) =~= zeros(n as nat));
    row
}

/// Whether entries of `wanted` that name one feature ask for as many ranges.
pub fn is_request_even<T: FeatureValue>(wanted: &[(usize, Vec<RangeInclusive<T>>)]) -> (even: bool)
    ensures
        even == request_even(request_view(wanted@)),
{
    let ghost view = request_view(wanted@);
    let n = wanted.len();
    let mut i: usize = 0;
    while i < n
        invariant
            i <= n,
            n == wanted@.len(),
            view == request_view(wanted@),
            forall|a: int, b: int|
                0 <= a < i && 0 <= b < n && (#[trigger] view[a]).0 == (#[trigger] view[b]).0
                    ==> view[a].1.len() == view[b].1.len(),
        decreases n - i,
    {
        let mut j: usize = 0;
        while j < n
            invariant
                i < n,
                j <= n,
                n == wanted@.len(),
                view == request_view(wanted@),
                forall|b: int|
                    0 <= b < j && view[i as int].0 == (#[trigger] view[b]).0 ==> view[i as int].1.len()
                        == view[b].1.len(),
            decreases n - j,
        {
            if wanted[i].0 == wanted[j].0 && wanted[i].1.len() != wanted[j].1.len() {
                assert(view[i as int].0 == view[j as int].0);
                assert(view[i as int].1.len() != view[j as int].1.len());
                return false;
            }
            j += 1;
        }
        i += 1;
    }
    true
}

/// The counts of a slot, or as many zeros as there are ranges.
pub open spec fn slot_or_zeros(slot: Option<Seq<int>>, n: nat) -> Seq<int> {
    match slot {
        Some(r) => r,
        None => zeros(n),
    }
}

/// `row` with one more hit in bucket `idx`.
pub open spec fn bumped_row(row: Seq<int>, idx: int) -> Seq<int> {
    row.update(idx, row[idx] + 1)
}

/// Counting range `idx` after the ranges before it: a hit bumps its bucket,
/// a miss changes nothing.
pub proof fn lemma_counted_step<T: FeatureValue>(
    at_entry: Seq<Option<Seq<int>>>,
    feat: int,
    ranges: Seq<RangeInclusiveView<T>>,
    v: T,
    idx: int,
    before: Seq<Option<Seq<int>>>,
    after: Seq<Option<Seq<int>>>,
)
    requires
        0 <= feat < at_entry.len(),
        0 <= idx < ranges.len(),
        at_entry[feat] is Some ==> at_entry[feat]->0.len() == ranges.len(),
        before == counted_ranges(at_entry, feat, ranges, v, idx),
        after == (if range_holds(ranges[idx], v) {
            before.update(
                feat,
                Some(bumped_row(slot_or_zeros(before[feat], ranges.len()), idx)),
            )
        } else {
            before
        }),
    ensures
        after == counted_ranges(at_entry, feat, ranges, v, idx + 1),
{
    let base = slot_or_zeros(at_entry[feat], ranges.len());
    let seen = any_hit_before(ranges, v, idx);
    if !seen {
        assert forall|k: int| 0 <= k < ranges.len() implies hits_before(ranges, v, idx)[k]
            == 0 by {
            if k < idx && range_holds(ranges[k], v) {
                assert(any_hit_before(ranges, v, idx));
            }
        }
    }
    if range_holds(ranges[idx], v) {
        assert(any_hit_before(ranges, v, idx + 1));
        let filled = slot_or_zeros(before[feat], ranges.len());
        assert(filled =~= merged_counts(base, hits_before(ranges, v, idx)));
        assert(bumped_row(filled, idx) =~= merged_counts(base, hits_before(ranges, v, idx + 1)));
        assert(after =~= counted_ranges(at_entry, feat, ranges, v, idx + 1));
    } else {
        if any_hit_before(ranges, v, idx + 1) {
            let k = choose|k: int|
                0 <= k < idx + 1 && k < ranges.len() && range_holds(#[trigger] ranges[k], v);
            assert(k < idx);
            assert(seen);
        } else if seen {
            let k = choose|k: int|
                0 <= k < idx && k < ranges.len() && range_holds(#[trigger] ranges[k], v);
            assert(any_hit_before(ranges, v, idx + 1));
        }
        assert(hits_before(ranges, v, idx + 1) =~= hits_before(ranges, v, idx));
    }
}

/// Every count of `result` can be held by `T`.
pub open spec fn fruit_fits<T: FeatureValue>(result: Seq<Option<Seq<int>>>) -> bool {
    forall|i: int, k: int|
        0 <= i < result.len() && (#[trigger] result[i]) is Some && 0 <= k < result[i]->0.len()
            ==> T::min_int() <= #[trigger] result[i]->0[k] <= T::max_int()
}

/// `later` has every count of `earlier`, and none of them smaller.
pub open spec fn grown_from(earlier: Seq<Option<Seq<int>>>, later: Seq<Option<Seq<int>>>) -> bool {
    &&& earlier.len() == later.len()
    &&& forall|i: int|
        0 <= i < earlier.len() && (#[trigger] earlier[i]) is Some ==> later[i] is Some
            && later[i]->0.len() == earlier[i]->0.len()
    &&& forall|i: int, k: int|
        0 <= i < earlier.len() && earlier[i] is Some && 0 <= k < earlier[i]->0.len()
            ==> #[trigger] earlier[i]->0[k] <= later[i]->0[k]
}

/// What has grown from what has grown from a result has grown from it.
pub proof fn lemma_grown_further(
    a: Seq<Option<Seq<int>>>,
    b: Seq<Option<Seq<int>>>,
    c: Seq<Option<Seq<int>>>,
)
    requires
        grown_from(a, b),
        grown_from(b, c),
    ensures
        grown_from(a, c),
{
    assert forall|i: int, k: int|
        0 <= i < a.len() && a[i] is Some && 0 <= k < a[i]->0.len() implies #[trigger] a[i]->0[k]
        <= c[i]->0[k] by {
        assert(b[i] is Some);
        assert(a[i]->0[k] <= b[i]->0[k]);
        assert(b[i]->0[k] <= c[i]->0[k]);
    }
}

/// Counting more ranges of one request entry makes no count smaller.
pub proof fn lemma_ranges_grow<T: FeatureValue>(
    result: Seq<Option<Seq<int>>>,
    feat: int,
    ranges: Seq<RangeInclusiveView<T>>,
    v: T,
    idx: int,
    more: int,
)
    requires
        0 <= feat < result.len(),
        0 <= idx <= more <= ranges.len(),
        result[feat] is Some ==> result[feat]->0.len() == ranges.len(),
    ensures
        grown_from(
            counted_ranges(result, feat, ranges, v, idx),
            counted_ranges(result, feat, ranges, v, more),
        ),
        counted_ranges(result, feat, ranges, v, 0) == result,
{
    let early = counted_ranges(result, feat, ranges, v, idx);
    let late = counted_ranges(result, feat, ranges, v, more);
    if any_hit_before(ranges, v, idx) {
        let k = choose|k: int|
            0 <= k < idx && k < ranges.len() && range_holds(#[trigger] ranges[k], v);
        assert(range_holds(ranges[k], v));
        assert(any_hit_before(ranges, v, more));
    }
    assert forall|i: int, k: int|
        0 <= i < early.len() && early[i] is Some && 0 <= k < early[i]->0.len() implies #[trigger] early[i]->0[k]
        <= late[i]->0[k] by {
        if i == feat {
            assert(hits_before(ranges, v, idx)[k] <= hits_before(ranges, v, more)[k]);
            if !any_hit_before(ranges, v, idx) && any_hit_before(ranges, v, more) {
                assert(0 <= hits_before(ranges, v, more)[k]);
            }
        }
    }
}

/// Counting one request entry makes no count smaller and keeps every filled
/// slot as long as the request asks.
pub proof fn lemma_entry_grows<T: FeatureValue>(
    result: Seq<Option<Seq<int>>>,
    wanted: RequestView<T>,
    e: int,
    doc: Seq<Option<T>>,
)
    requires
        0 <= e < wanted.len(),
        request_even(wanted),
        fits_request(result, wanted),
    ensures
        grown_from(result, counted_entry(result, wanted[e].0, wanted[e].1, doc)),
        fits_request(counted_entry(result, wanted[e].0, wanted[e].1, doc), wanted),
{
    let feat = wanted[e].0;
    let ranges = wanted[e].1;
    let after = counted_entry(result, feat, ranges, doc);
    if feat < result.len() && feat < doc.len() && doc[feat as int] is Some {
        lemma_ranges_grow(
            result,
            feat as int,
            ranges,
            doc[feat as int]->0,
            0,
            ranges.len() as int,
        );
    }
    assert forall|x: int|
        0 <= x < wanted.len() && (#[trigger] wanted[x]).0 < after.len() && after[wanted[x].0 as int] is Some implies after[wanted[x].0 as int]->0.len()
        == wanted[x].1.len() by {
        if wanted[x].0 == feat && after != result {
            assert(wanted[x].1.len() == wanted[e].1.len());
        }
    }
}

/// Counting the entries of a request from `lo` up to `hi` makes no count
/// smaller and keeps every filled slot as long as the request asks.
pub proof fn lemma_entries_grow<T: FeatureValue>(
    result: Seq<Option<Seq<int>>>,
    wanted: RequestView<T>,
    lo: int,
    hi: int,
    doc: Seq<Option<T>>,
)
    requires
        0 <= lo <= hi <= wanted.len(),
        request_even(wanted),
        fits_request(result, wanted),
    ensures
        grown_from(result, counted_doc(result, wanted.subrange(lo, hi), doc)),
        fits_request(counted_doc(result, wanted.subrange(lo, hi), doc), wanted),
    decreases hi - lo,
{
    let part = wanted.subrange(lo, hi);
    if lo < hi {
        let before = counted_doc(result, wanted.subrange(lo, hi - 1), doc);
        assert(part.drop_last() =~= wanted.subrange(lo, hi - 1));
        assert(part.last() == wanted[hi - 1]);
        lemma_entries_grow(result, wanted, lo, hi - 1, doc);
        lemma_entry_grows(before, wanted, hi - 1, doc);
        lemma_grown_further(result, before, counted_doc(result, part, doc));
    } else {
        assert(part.len() == 0);
    }
}

/// Counting the first `hi` entries of a request is counting the first `e`
/// and then those from `e` up to `hi`.
pub proof fn lemma_counting_splits<T: FeatureValue>(
    result: Seq<Option<Seq<int>>>,
    wanted: RequestView<T>,
    e: int,
    hi: int,
    doc: Seq<Option<T>>,
)
    requires
        0 <= e <= hi <= wanted.len(),
    ensures
        counted_doc(result, wanted.subrange(0, hi), doc) == counted_doc(
            counted_doc(result, wanted.subrange(0, e), doc),
            wanted.subrange(e, hi),
            doc,
        ),
    decreases hi - e,
{
    if e < hi {
        assert(wanted.subrange(0, hi).drop_last() =~= wanted.subrange(0, hi - 1));
        assert(wanted.subrange(0, hi).last() == wanted[hi - 1]);
        assert(wanted.subrange(e, hi).drop_last() =~= wanted.subrange(e, hi - 1));
        assert(wanted.subrange(e, hi).last() == wanted[hi - 1]);
        lemma_counting_splits(result, wanted, e, hi - 1, doc);
    }
}

/// One request entry uses up at most one hit of the room of every count.
pub proof fn lemma_entry_uses_room<T: FeatureValue>(
    result: Seq<Option<Seq<int>>>,
    wanted: RequestView<T>,
    e: int,
    doc: Seq<Option<T>>,
    room: int,
)
    requires
        0 <= e < wanted.len(),
        fits_request(result, wanted),
        headroom::<T>(result, room),
        room >= 1,
    ensures
        headroom::<T>(counted_entry(result, wanted[e].0, wanted[e].1, doc), room - 1),
{
    let feat = wanted[e].0;
    let ranges = wanted[e].1;
    let after = counted_entry(result, feat, ranges, doc);
    assert forall|i: int, k: int|
        0 <= i < after.len() && (#[trigger] after[i]) is Some && 0 <= k < after[i]->0.len() implies 0
        <= #[trigger] after[i]->0[k] && after[i]->0[k] + (room - 1) <= T::max_int() by {
        if after != result && i == feat {
            let v = doc[feat as int]->0;
            assert(hits(ranges, v)[k] <= 1);
            if result[i] is Some {
                assert(0 <= result[i]->0[k]);
            }
        } else {
            assert(after[i] == result[i]);
            assert(0 <= result[i]->0[k]);
        }
    }
}

/// Where every count has room for one hit per entry of the request, the
/// counts after a document can all be held.
pub proof fn lemma_headroom_suffices<T: FeatureValue>(
    result: Seq<Option<Seq<int>>>,
    wanted: RequestView<T>,
    upto: int,
    doc: Seq<Option<T>>,
)
    requires
        0 <= upto <= wanted.len(),
        request_even(wanted),
        fits_request(result, wanted),
        headroom::<T>(result, wanted.len() as int),
    ensures
        headroom::<T>(counted_doc(result, wanted.subrange(0, upto), doc), wanted.len() - upto),
        fruit_fits::<T>(counted_doc(result, wanted.subrange(0, upto), doc)),
    decreases upto,
{
    if upto > 0 {
        let part = wanted.subrange(0, upto);
        assert(part.drop_last() =~= wanted.subrange(0, upto - 1));
        assert(part.last() == wanted[upto - 1]);
        lemma_headroom_suffices(result, wanted, upto - 1, doc);
        lemma_entries_grow(result, wanted, 0, upto - 1, doc);
        lemma_entry_uses_room(
            counted_doc(result, wanted.subrange(0, upto - 1), doc),
            wanted,
            upto - 1,
            doc,
            wanted.len() - (upto - 1),
        );
    }
    let after = counted_doc(result, wanted.subrange(0, upto), doc);
    assert forall|i: int, k: int|
        0 <= i < after.len() && (#[trigger] after[i]) is Some && 0 <= k < after[i]->0.len() implies T::min_int()
        <= #[trigger] after[i]->0[k] <= T::max_int() by {
        T::lemma_layout(T::from_raw(0));
        assert(0 <= after[i]->0[k]);
    }
}

/// Where the counts after a document can all be held, so can a count right
/// after any of its hits: the count that range `idx` of entry `e` of the
/// request has just been added to.
pub proof fn lemma_hit_fits<T: FeatureValue>(
    start: Seq<Option<Seq<int>>>,
    wanted: RequestView<T>,
    e: int,
    doc: Seq<Option<T>>,
    idx: int,
)
    requires
        request_even(wanted),
        fits_request(start, wanted),
        fruit_fits::<T>(counted_doc(start, wanted, doc)),
        0 <= e < wanted.len(),
        wanted[e].0 < start.len(),
        wanted[e].0 < doc.len(),
        doc[wanted[e].0 as int] is Some,
        0 <= idx < wanted[e].1.len(),
        range_holds(wanted[e].1[idx], doc[wanted[e].0 as int]->0),
    ensures
        ({
            let feat = wanted[e].0 as int;
            let hit = counted_ranges(
                counted_doc(start, wanted.subrange(0, e), doc),
                feat,
                wanted[e].1,
                doc[feat]->0,
                idx + 1,
            );
            &&& hit[feat] is Some
            &&& hit[feat]->0.len() == wanted[e].1.len()
            &&& hit[feat]->0[idx] <= T::max_int()
        }),
{
    let feat = wanted[e].0 as int;
    let ranges = wanted[e].1;
    let v = doc[feat]->0;
    let n = wanted.len() as int;
    let at_entry = counted_doc(start, wanted.subrange(0, e), doc);
    let hit = counted_ranges(at_entry, feat, ranges, v, idx + 1);
    let done = counted_doc(start, wanted.subrange(0, e + 1), doc);
    let last = counted_doc(start, wanted, doc);
    lemma_entries_grow(start, wanted, 0, e, doc);
    lemma_entries_grow(start, wanted, 0, e + 1, doc);
    assert(wanted.subrange(0, e + 1).drop_last() =~= wanted.subrange(0, e));
    assert(wanted.subrange(0, e + 1).last() == wanted[e]);
    assert(done == counted_ranges(at_entry, feat, ranges, v, ranges.len() as int));
    assert(any_hit_before(ranges, v, idx + 1));
    lemma_ranges_grow(at_entry, feat, ranges, v, idx + 1, ranges.len() as int);
    assert(wanted.subrange(0, n) =~= wanted);
    lemma_counting_splits(start, wanted, e + 1, n, doc);
    lemma_entries_grow(done, wanted, e + 1, n, doc);
    lemma_grown_further(hit, done, last);
    assert(hit[feat] is Some);
    assert(hit[feat]->0[idx] <= last[feat]->0[idx]);
}

/// Counts, for the documents of one segment, how many fall into each
/// requested range of each requested feature.
pub struct FeatureSegmentCollector<T: FeatureValue> {
    agg: FeatureRanges<T>,
    wanted: AggregationRequest<T>,
    unset_value: Option<T>,
}

impl<T: FeatureValue> FeatureSegmentCollector<T> {
    /// The counts so far.
    pub closed spec fn result(self) -> Seq<Option<Seq<int>>> {
        fruit(self.agg@)
    }

    /// What is being counted.
    pub closed spec fn request(self) -> RequestView<T> {
        request_view(self.wanted@)
    }

    /// The value that marks a feature as absent from a document.
    pub closed spec fn marker(self) -> Option<T> {
        self.unset_value
    }

    /// The request is even and every filled slot has one count per
    /// requested range.
    pub closed spec fn wf(self) -> bool {
        &&& request_even(request_view(self.wanted@))
        &&& fits_request(fruit(self.agg@), request_view(self.wanted@))
    }

    /// Counts one document, given as its packed feature vector. Each entry
    /// of the request is taken in turn: where the document has the feature,
    /// every range that holds its value gets one more hit, and the
    /// feature's slot is filled on its first hit.
    pub fn collect(&mut self, data: &[u8])
        requires
            old(self).wf(),
            data@.len() == old(self).result().len() * T::width(),
            fruit_fits::<T>(
                counted_doc(
                    old(self).result(),
                    old(self).request(),
                    slots::<T>(data@, old(self).marker(), old(self).result().len()),
                ),
            ),
        ensures
            final(self).wf(),
            final(self).request() == old(self).request(),
            final(self).marker() == old(self).marker(),
            final(self).result() == counted_doc(
                old(self).result(),
                old(self).request(),
                slots::<T>(data@, old(self).marker(), old(self).result().len()),
            ),
    {
        let n = self.agg.len();
        let entries = self.wanted.len();
        let ghost wanted = request_view(self.wanted@);
        let ghost start = fruit(self.agg@);
        let ghost doc = slots::<T>(data@, self.unset_value, n as nat);
        let mut e: usize = 0;
        while e < entries
            invariant
                e <= entries,
                entries == self.wanted@.len(),
                n == self.agg@.len(),
                data@.len() == n * T::width(),
                wanted == request_view(self.wanted@),
                self.wanted == old(self).wanted,
                self.unset_value == old(self).unset_value,
                doc == slots::<T>(data@, self.unset_value, n as nat),
                request_even(wanted),
                fits_request(start, wanted),
                start.len() == n,
                fruit_fits::<T>(counted_doc(start, wanted, doc)),
                fits_request(fruit(self.agg@), wanted),
                fruit(self.agg@) == counted_doc(start, wanted.take(e as int), doc),
            decreases entries - e,
        {
            let feat = self.wanted[e].0;
            let ghost ranges = wanted[e as int].1;
            let ghost at_entry = fruit(self.agg@);
            proof {
                assert(wanted.take(e + 1).drop_last() =~= wanted.take(e as int));
                assert(wanted.take(e + 1).last() == wanted[e as int]);
                assert(ranges == range_views(self.wanted@[e as int].1@));
            }
            if feat < n {
                proof {
                    T::lemma_layout(T::from_raw(0));
                    assert(wanted.take(e as int) == wanted.subrange(0, e as int));
                    crate::feature::vector::lemma_slot_bounds(
                        feat as int,
                        n as int,
                        T::width() as int,
                    );
                }
                let opt = read_slot(data, self.unset_value, feat);
                if let Some(value) = opt {
                    let count = self.wanted[e].1.len();
                    let mut idx: usize = 0;
                    while idx < count
                        invariant
                            idx <= count,
                            e < entries,
                            feat < n,
                            entries == self.wanted@.len(),
                            n == self.agg@.len(),
                            count == ranges.len(),
                            count == self.wanted@[e as int].1@.len(),
                            wanted == request_view(self.wanted@),
                            ranges == wanted[e as int].1,
                            feat == wanted[e as int].0,
                            ranges == range_views(self.wanted@[e as int].1@),
                            self.wanted == old(self).wanted,
                            self.unset_value == old(self).unset_value,
                            request_even(wanted),
                            fits_request(at_entry, wanted),
                            fits_request(fruit(self.agg@), wanted),
                            at_entry.len() == n,
                            fits_request(start, wanted),
                            start.len() == n,
                            fruit_fits::<T>(counted_doc(start, wanted, doc)),
                            at_entry == counted_doc(start, wanted.take(e as int), doc),
                            doc.len() == n,
                            doc[feat as int] == Some(value),
                            fruit(self.agg@) == counted_ranges(
                                at_entry,
                                feat as int,
                                ranges,
                                value,
                                idx as int,
                            ),
                        decreases count - idx,
                    {
                        let ghost before = fruit(self.agg@);
                        let ghost before_agg = self.agg@;
                        let inside = value.within(&self.wanted[e].1[idx]);
                        assert(inside == range_holds(ranges[idx as int], value));
                        proof {
                            if inside {
                                let filled = slot_or_zeros(before[feat as int], ranges.len());
                                lemma_hit_fits(start, wanted, e as int, doc, idx as int);
                                lemma_counted_step(
                                    at_entry,
                                    feat as int,
                                    ranges,
                                    value,
                                    idx as int,
                                    before,
                                    before.update(
                                        feat as int,
                                        Some(bumped_row(filled, idx as int)),
                                    ),
                                );
                                assert(filled[idx as int] + 1 <= T::max_int());
                            }
                        }
                        if inside {
                            match &mut self.agg[feat] {
                                Some(row) => {
                                    assert(before[feat as int] == Some(counts(row@)));
                                    assert(wanted[e as int].0 == feat);
                                    assert(row@.len() == count);
                                    assert(before[feat as int]->0[idx as int] == row@[idx as int].as_int());
                                    let one = T::one();
                                    proof {
                                        T::lemma_layout(one);
                                        T::lemma_layout(row@[idx as int]);
                                    }
                                    let bumped = row[idx].plus(one);
                                    row.set(idx, bumped);
                                },
                                None => {
                                    let mut row = zero_row::<T>(count);
                                    assert(counts(row@)[idx as int] == 0);
                                    row.set(idx, T::one());
                                    self.agg.set(feat, Some(row));
                                },
                            }
                        }
                        proof {
                            let after = fruit(self.agg@);
                            assert(forall|j: int|
                                0 <= j < n && j != feat ==> self.agg@[j] == before_agg[j]);
                            if inside {
                                let filled = slot_or_zeros(before[feat as int], ranges.len());
                                assert(after[feat as int] is Some);
                                assert(after[feat as int]->0 =~= bumped_row(filled, idx as int));
                                assert(after =~= before.update(
                                    feat as int,
                                    Some(bumped_row(filled, idx as int)),
                                ));
                            } else {
                                assert(after =~= before);
                            }
                            lemma_counted_step(
                                at_entry,
                                feat as int,
                                ranges,
                                value,
                                idx as int,
                                before,
                                after,
                            );
                            assert(fits_request(after, wanted)) by {
                                assert forall|x: int|
                                    0 <= x < wanted.len() && (#[trigger] wanted[x]).0 < after.len()
                                        && after[wanted[x].0 as int] is Some implies after[wanted[x].0 as int]->0.len()
                                    == wanted[x].1.len() by {
                                    if wanted[x].0 == feat {
                                        assert(wanted[x].1.len() == wanted[e as int].1.len());
                                    } else {
                                        assert(after[wanted[x].0 as int] == before[wanted[x].0 as int]);
                                    }
                                }
                            }
                        }
                        idx += 1;
                    }
                    proof {
                        assert(fruit(self.agg@) == counted_entry(at_entry, feat, ranges, doc));
                    }
                } else {
                    assert(fruit(self.agg@) == counted_entry(at_entry, feat, ranges, doc));
                }
            } else {
                assert(fruit(self.agg@) == counted_entry(at_entry, feat, ranges, doc));
            }
            e += 1;
        }
        assert(wanted.take(entries as int) =~= wanted);
    }

    /// Counts one document like `collect` where `data` is one value wide
    /// per feature and every count has room for one more hit per entry of
    /// the request, which is the most that one document adds. Says whether
    /// it counted; where it did not, nothing changes.
    pub fn checked_collect(&mut self, data: &[u8]) -> (counted: bool)
        requires
            old(self).wf(),
        ensures
            final(self).wf(),
            final(self).request() == old(self).request(),
            final(self).marker() == old(self).marker(),
            counted == (data@.len() == old(self).result().len() * T::width() && headroom::<T>(
                old(self).result(),
                old(self).request().len() as int,
            )),
            final(self).result() == (if counted {
                counted_doc(
                    old(self).result(),
                    old(self).request(),
                    slots::<T>(data@, old(self).marker(), old(self).result().len()),
                )
            } else {
                old(self).result()
            }),
    {
        let w = T::size();
        let n = self.agg.len();
        let len = data.len();
        proof {
            T::lemma_layout(T::from_raw(0));
        }
        if len % w != 0 || len / w != n {
            assert(len != n * w) by (nonlinear_arith)
                requires
                    len % w != 0 || len / w != n,
                    w > 0,
            ;
            return false;
        }
        assert(len == n * w) by (nonlinear_arith)
            requires
                len % w == 0,
                len / w == n,
                w > 0,
        ;
        if !self.has_headroom() {
            return false;
        }
        proof {
            let wanted = request_view(self.wanted@);
            let doc = slots::<T>(data@, self.unset_value, n as nat);
            lemma_headroom_suffices::<T>(fruit(self.agg@), wanted, wanted.len() as int, doc);
            assert(wanted.subrange(0, wanted.len() as int) =~= wanted);
        }
        self.collect(data);
        true
    }

    /// Whether every count can take one more hit per entry of the request,
    /// which is the most that one document adds.
    pub fn has_headroom(&self) -> (roomy: bool)
        ensures
            roomy == headroom::<T>(self.result(), self.request().len() as int),
    {
        let entries = self.wanted.len();
        let ghost result = fruit(self.agg@);
        let mut room = T::zero();
        let mut e: usize = 0;
        while e < entries
            invariant
                e <= entries,
                entries == self.wanted@.len(),
                room.as_int() == e,
            decreases entries - e,
        {
            let one = T::one();
            if !room.can_add(one) {
                proof {
                    T::lemma_layout(one);
                }
                return false;
            }
            room = room.plus(one);
            e += 1;
        }
        proof {
            T::lemma_layout(room);
        }
        let n = self.agg.len();
        let mut i: usize = 0;
        while i < n
            invariant
                i <= n,
                n == self.agg@.len(),
                result == fruit(self.agg@),
                entries == self.wanted@.len(),
                room.as_int() == entries,
                entries <= T::max_int(),
                forall|x: int, k: int|
                    0 <= x < i && (#[trigger] result[x]) is Some && 0 <= k < result[x]->0.len()
                        ==> 0 <= #[trigger] result[x]->0[k] && result[x]->0[k] + entries
                        <= T::max_int(),
            decreases n - i,
        {
            if let Some(row) = &self.agg[i] {
                assert(result[i as int] == Some(counts(row@)));
                let len = row.len();
                let mut k: usize = 0;
                while k < len
                    invariant
                        k <= len,
                        i < n,
                        n == result.len(),
                        result == fruit(self.agg@),
                        entries == self.wanted@.len(),
                        len == row@.len(),
                        result[i as int] == Some(counts(row@)),
                        room.as_int() == entries,
                        forall|j: int|
                            0 <= j < k ==> 0 <= #[trigger] counts(row@)[j] && counts(row@)[j]
                                + entries <= T::max_int(),
                    decreases len - k,
                {
                    let zero = T::zero();
                    assert(counts(row@)[k as int] == row@[k as int].as_int());
                    proof {
                        T::lemma_layout(row@[k as int]);
                    }
                    if !zero.at_most(row[k]) || !row[k].can_add(room) {
                        assert(!(0 <= result[i as int]->0[k as int] && result[i as int]->0[k as int]
                            + entries <= T::max_int()));
                        return false;
                    }
                    k += 1;
                }
            }
            i += 1;
        }
        true
    }

    /// Hands over the counts of the segment.
    pub fn harvest(self) -> (result: FeatureRanges<T>)
        ensures
            fruit(result@) == self.result(),
    {
        self.agg
    }
}

/// What summing `b` into `a` gives: the sum, or the reason why the two
/// cannot be summed.
pub open spec fn merge_outcome(a: Seq<Option<Seq<int>>>, b: Seq<Option<Seq<int>>>) -> Result<
    Seq<Option<Seq<int>>>,
    MergeError,
> {
    if a.len() != b.len() {
        Err(MergeError::UnevenFeatureRanges)
    } else if !mergeable(a, b) {
        Err(MergeError::UnevenRangeVecs)
    } else {
        Ok(merged_fruit(a, b))
    }
}

/// What summing every result of `children` into `acc` gives, first to last:
/// the sum, or the reason why the first one that cannot be summed cannot.
pub open spec fn merged_children(
    acc: Seq<Option<Seq<int>>>,
    children: Seq<Seq<Option<Seq<int>>>>,
) -> Result<Seq<Option<Seq<int>>>, MergeError>
    decreases children.len(),
{
    if children.len() == 0 {
        Ok(acc)
    } else {
        match merged_children(acc, children.drop_last()) {
            Ok(sum) => merge_outcome(sum, children.last()),
            Err(e) => Err(e),
        }
    }
}

/// Every sum taken while `children` are summed into `acc` can be held by `T`.
pub open spec fn children_fit<T: FeatureValue>(
    acc: Seq<Option<Seq<int>>>,
    children: Seq<Seq<Option<Seq<int>>>>,
) -> bool
    decreases children.len(),
{
    if children.len() == 0 {
        true
    } else {
        &&& children_fit::<T>(acc, children.drop_last())
        &&& match merged_children(acc, children.drop_last()) {
            Ok(sum) => sums_fit::<T>(sum, children.last()),
            Err(_) => true,
        }
    }
}

/// The results of `children` as numbers.
pub open spec fn fruits<T: FeatureValue>(children: Seq<FeatureRanges<T>>) -> Seq<
    Seq<Option<Seq<int>>>,
> {
    Seq::new(children.len(), |c: int| fruit(children[c]@))
}

/// Aggregates hit counts per requested range over the segments of an index.
pub struct FeatureCollector<T: FeatureValue> {
    agg: FeatureRanges<T>,
    wanted: AggregationRequest<T>,
    unset_value: Option<T>,
}

impl<T: FeatureValue> FeatureCollector<T> {
    /// How many features a document has.
    pub closed spec fn num_features(self) -> nat {
        self.agg@.len()
    }

    /// What is being counted.
    pub closed spec fn request(self) -> RequestView<T> {
        request_view(self.wanted@)
    }

    /// The value that marks a feature as absent from a document.
    pub closed spec fn marker(self) -> Option<T> {
        self.unset_value
    }

    /// The request is even and the collector's own counts are empty.
    pub closed spec fn wf(self) -> bool {
        &&& request_even(request_view(self.wanted@))
        &&& fruit(self.agg@) == empty_fruit(self.agg@.len())
    }

    /// A collector for documents of `num_features` features that counts what
    /// `wanted` asks for.
    pub fn for_field(
        num_features: usize,
        unset_value: Option<T>,
        wanted: &[(usize, Vec<RangeInclusive<T>>)],
    ) -> (collector: FeatureCollector<T>)
        requires
            request_even(request_view(wanted@)),
        ensures
            collector.wf(),
            collector.num_features() == num_features,
            collector.request() == request_view(wanted@),
            collector.marker() == unset_value,
    {
        FeatureCollector {
            wanted: copy_request(wanted),
            agg: empty_ranges(num_features),
            unset_value,
        }
    }

    /// A collector with empty counts for one segment.
    pub fn for_segment(&self) -> (child: FeatureSegmentCollector<T>)
        requires
            self.wf(),
        ensures
            child.wf(),
            child.result() == empty_fruit(self.num_features()),
            child.request() == self.request(),
            child.marker() == self.marker(),
    {
        FeatureSegmentCollector {
            agg: empty_ranges(self.agg.len()),
            wanted: copy_request(self.wanted.as_slice()),
            unset_value: self.unset_value,
        }
    }

    /// Counting needs no relevance score.
    pub fn requires_scoring(&self) -> (needed: bool)
        ensures
            !needed,
    {
        false
    }

    /// Sums the results of the segments, first to last, starting from empty
    /// counts. Stops at the first result that cannot be summed.
    pub fn merge_fruits(&self, children: Vec<FeatureRanges<T>>) -> (merged: Result<
        FeatureRanges<T>,
        MergeError,
    >)
        requires
            self.wf(),
            children_fit::<T>(empty_fruit(self.num_features()), fruits(children@)),
        ensures
            match merged {
                Ok(sum) => merged_children(empty_fruit(self.num_features()), fruits(children@))
                    == Ok::<Seq<Option<Seq<int>>>, MergeError>(fruit(sum@)),
                Err(e) => merged_children(empty_fruit(self.num_features()), fruits(children@))
                    == Err::<Seq<Option<Seq<int>>>, MergeError>(e),
            },
    {
        let n = self.agg.len();
        let ghost start = empty_fruit(n as nat);
        let ghost all = fruits(children@);
        let mut merged: FeatureRanges<T> = empty_ranges(n);
        proof {
            assert(sums_fit::<T>(fruit(merged@), fruit(self.agg@)));
            assert(mergeable(start, start));
            assert(merged_fruit(start, start) =~= start);
        }
        match merge_feature_ranges(&mut merged, self.agg.as_slice()) {
            Ok(_) => {},
            Err(e) => {
                proof {
                    if e == MergeError::UnevenRangeVecs {
                        let k = choose|k: int| #[trigger] first_uneven(start, start, k);
                        assert(slot_even(start[k], start[k]));
                    }
                    assert(false);
                }
                return Err(e);
            },
        }
        let mut c: usize = 0;
        while c < children.len()
            invariant
                c <= children@.len(),
                n == self.agg@.len(),
                all == fruits(children@),
                start == empty_fruit(n as nat),
                children_fit::<T>(start, all),
                merged_children(start, all.take(c as int)) == Ok::<
                    Seq<Option<Seq<int>>>,
                    MergeError,
                >(fruit(merged@)),
            decreases children@.len() - c,
        {
            proof {
                assert(all.take(c + 1).drop_last() =~= all.take(c as int));
                assert(all.take(c + 1).last() == fruit(children@[c as int]@));
                lemma_children_fit_prefix::<T>(start, all, c + 1);
            }
            let ghost sum = fruit(merged@);
            match merge_feature_ranges(&mut merged, children[c].as_slice()) {
                Ok(_) => {},
                Err(e) => {
                    proof {
                        let next = fruit(children@[c as int]@);
                        if e == MergeError::UnevenRangeVecs {
                            let k = choose|k: int| #[trigger] first_uneven(sum, next, k);
                            assert(!slot_even(sum[k], next[k]));
                            assert(!mergeable(sum, next));
                        }
                        assert(sum.len() == merged@.len());
                        assert(next.len() == children@[c as int]@.len());
                        assert(merge_outcome(sum, next) == Err::<Seq<Option<Seq<int>>>, MergeError>(e));
                        assert(merged_children(start, all.take(c + 1)) == merge_outcome(sum, next));
                        lemma_merge_stops(start, all, c + 1, e);
                    }
                    return Err(e);
                },
            }
            c += 1;
        }
        assert(all.take(c as int) =~= all);
        Ok(merged)
    }

    /// Sums the results of the segments like `merge_fruits`, testing before
    /// each sum that `T` can hold it. Gives nothing where a sum would not
    /// fit, and what `merge_fruits` gives where every sum fits.
    pub fn checked_merge_fruits(&self, children: Vec<FeatureRanges<T>>) -> (merged: Option<
        Result<FeatureRanges<T>, MergeError>,
    >)
        requires
            self.wf(),
        ensures
            match merged {
                Some(Ok(sum)) => {
                    &&& children_fit::<T>(empty_fruit(self.num_features()), fruits(children@))
                    &&& merged_children(empty_fruit(self.num_features()), fruits(children@))
                        == Ok::<Seq<Option<Seq<int>>>, MergeError>(fruit(sum@))
                },
                Some(Err(e)) => {
                    &&& children_fit::<T>(empty_fruit(self.num_features()), fruits(children@))
                    &&& merged_children(empty_fruit(self.num_features()), fruits(children@))
                        == Err::<Seq<Option<Seq<int>>>, MergeError>(e)
                },
                None => !children_fit::<T>(empty_fruit(self.num_features()), fruits(children@)),
            },
    {
        let n = self.agg.len();
        let ghost start = empty_fruit(n as nat);
        let ghost all = fruits(children@);
        let mut merged: FeatureRanges<T> = empty_ranges(n);
        let mut c: usize = 0;
        while c < children.len()
            invariant
                c <= children@.len(),
                n == self.agg@.len(),
                all == fruits(children@),
                start == empty_fruit(n as nat),
                children_fit::<T>(start, all.take(c as int)),
                merged_children(start, all.take(c as int)) == Ok::<
                    Seq<Option<Seq<int>>>,
                    MergeError,
                >(fruit(merged@)),
            decreases children@.len() - c,
        {
            proof {
                assert(all.take(c + 1).drop_last() =~= all.take(c as int));
                assert(all.take(c + 1).last() == fruit(children@[c as int]@));
            }
            let ghost sum = fruit(merged@);
            if !ranges_fit(&merged, children[c].as_slice()) {
                proof {
                    assert(!children_fit::<T>(start, all.take(c + 1)));
                    if children_fit::<T>(start, all) {
                        lemma_children_fit_prefix::<T>(start, all, c + 1);
                    }
                }
                return None;
            }
            match merge_feature_ranges(&mut merged, children[c].as_slice()) {
                Ok(_) => {},
                Err(e) => {
                    proof {
                        let next = fruit(children@[c as int]@);
                        if e == MergeError::UnevenRangeVecs {
                            let k = choose|k: int| #[trigger] first_uneven(sum, next, k);
                            assert(!slot_even(sum[k], next[k]));
                            assert(!mergeable(sum, next));
                        }
                        assert(sum.len() == merged@.len());
                        assert(next.len() == children@[c as int]@.len());
                        assert(merge_outcome(sum, next) == Err::<Seq<Option<Seq<int>>>, MergeError>(e));
                        assert(merged_children(start, all.take(c + 1)) == merge_outcome(sum, next));
                        assert(children_fit::<T>(start, all.take(c + 1)));
                        lemma_merge_stops(start, all, c + 1, e);
                        lemma_fit_after_stop::<T>(start, all, c + 1);
                    }
                    return Some(Err(e));
                },
            }
            c += 1;
        }
        assert(all.take(c as int) =~= all);
        Some(Ok(merged))
    }
}

/// Once the first `upto` results cannot be summed, nothing is summed behind
/// them: what fits up to there fits for all.
pub proof fn lemma_fit_after_stop<T: FeatureValue>(
    acc: Seq<Option<Seq<int>>>,
    children: Seq<Seq<Option<Seq<int>>>>,
    upto: int,
)
    requires
        0 <= upto <= children.len(),
        children_fit::<T>(acc, children.take(upto)),
        merged_children(acc, children.take(upto)) is Err,
    ensures
        children_fit::<T>(acc, children),
    decreases children.len(),
{
    if upto == children.len() {
        assert(children.take(upto) =~= children);
    } else {
        assert(children.drop_last().take(upto) =~= children.take(upto));
        lemma_fit_after_stop::<T>(acc, children.drop_last(), upto);
        lemma_merge_stops(
            acc,
            children.drop_last(),
            upto,
            merged_children(acc, children.take(upto))->Err_0,
        );
    }
}

/// What fits while all of `children` are summed fits while the first `upto`
/// are.
pub proof fn lemma_children_fit_prefix<T: FeatureValue>(
    acc: Seq<Option<Seq<int>>>,
    children: Seq<Seq<Option<Seq<int>>>>,
    upto: int,
)
    requires
        0 <= upto <= children.len(),
        children_fit::<T>(acc, children),
    ensures
        children_fit::<T>(acc, children.take(upto)),
    decreases children.len(),
{
    if upto == children.len() {
        assert(children.take(upto) =~= children);
    } else {
        assert(children.drop_last().take(upto) =~= children.take(upto));
        lemma_children_fit_prefix::<T>(acc, children.drop_last(), upto);
    }
}

/// Once the first `upto` results cannot be summed, neither can all of them,
/// for the same reason.
pub proof fn lemma_merge_stops(
    acc: Seq<Option<Seq<int>>>,
    children: Seq<Seq<Option<Seq<int>>>>,
    upto: int,
    e: MergeError,
)
    requires
        0 <= upto <= children.len(),
        merged_children(acc, children.take(upto)) == Err::<Seq<Option<Seq<int>>>, MergeError>(e),
    ensures
        merged_children(acc, children) == Err::<Seq<Option<Seq<int>>>, MergeError>(e),
    decreases children.len(),
{
    if upto == children.len() {
        assert(children.take(upto) =~= children);
    } else {
        assert(children.drop_last().take(upto) =~= children.take(upto));
        lemma_merge_stops(acc, children.drop_last(), upto, e);
    }
}

} // verus!
