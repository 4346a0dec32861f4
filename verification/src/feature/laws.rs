//! What holds of aggregation whatever the documents and the request.

use vstd::prelude::*;
use crate::feature::collector::{
    any_hit, counted_doc, counted_docs, counted_entry, empty_fruit, merged_children,
    merged_fruit, mergeable, request_even, slot_even, RequestView,
};
use crate::feature::value::FeatureValue;

verus! {

/// Every filled slot of `result` belongs to a requested feature and has one
/// count per range requested for it.
pub open spec fn shaped<T: FeatureValue>(
    result: Seq<Option<Seq<int>>>,
    wanted: RequestView<T>,
) -> bool {
    forall|i: int|
        0 <= i < result.len() && (#[trigger] result[i]) is Some ==> exists|e: int|
            0 <= e < wanted.len() && (#[trigger] wanted[e]).0 == i && wanted[e].1.len()
                == result[i]->0.len()
}

/// The documents of all `segments`, first segment first.
pub open spec fn all_docs<T: FeatureValue>(segments: Seq<Seq<Seq<Option<T>>>>) -> Seq<
    Seq<Option<T>>,
>
    decreases segments.len(),
{
    if segments.len() == 0 {
        Seq::empty()
    } else {
        all_docs(segments.drop_last()) + segments.last()
    }
}

/// The result of each segment of `segments`, counted from empty counts over
/// `n` features.
pub open spec fn segment_fruits<T: FeatureValue>(
    n: nat,
    wanted: RequestView<T>,
    segments: Seq<Seq<Seq<Option<T>>>>,
) -> Seq<Seq<Option<Seq<int>>>> {
    Seq::new(segments.len(), |s: int| counted_docs(empty_fruit(n), wanted, segments[s]))
}

/// A document in which every requested feature is absent changes no count.
pub proof fn lemma_absent_features_count_nothing<T: FeatureValue>(
    result: Seq<Option<Seq<int>>>,
    wanted: RequestView<T>,
    doc: Seq<Option<T>>,
)
    requires
        forall|e: int|
            0 <= e < wanted.len() && (#[trigger] wanted[e]).0 < doc.len() ==> doc[wanted[e].0 as int] is None,
    ensures
        counted_doc(result, wanted, doc) == result,
    decreases wanted.len(),
{
    if wanted.len() > 0 {
        let rest = wanted.drop_last();
        assert forall|e: int| 0 <= e < rest.len() && (#[trigger] rest[e]).0 < doc.len() implies doc[rest[e].0 as int] is None by {
            assert(rest[e] == wanted[e]);
        }
        lemma_absent_features_count_nothing(result, rest, doc);
        assert(wanted.last() == wanted[wanted.len() - 1]);
    }
}

/// Counting one request entry keeps the number of slots, fills only the
/// entry's feature, and keeps the shape that the request gives.
pub proof fn lemma_entry_keeps_shape<T: FeatureValue>(
    result: Seq<Option<Seq<int>>>,
    wanted: RequestView<T>,
    e: int,
    doc: Seq<Option<T>>,
)
    requires
        0 <= e < wanted.len(),
        request_even(wanted),
        shaped(result, wanted),
    ensures
        counted_entry(result, wanted[e].0, wanted[e].1, doc).len() == result.len(),
        shaped(counted_entry(result, wanted[e].0, wanted[e].1, doc), wanted),
{
    let after = counted_entry(result, wanted[e].0, wanted[e].1, doc);
    let feat = wanted[e].0 as int;
    assert forall|i: int| 0 <= i < after.len() && (#[trigger] after[i]) is Some implies exists|
        x: int,
    |
        0 <= x < wanted.len() && (#[trigger] wanted[x]).0 == i && wanted[x].1.len()
            == after[i]->0.len() by {
        if after != result && i == feat {
            if result[i] is Some {
                let x = choose|x: int|
                    0 <= x < wanted.len() && (#[trigger] wanted[x]).0 == i && wanted[x].1.len()
                        == result[i]->0.len();
                assert(wanted[x].1.len() == wanted[e].1.len());
            }
            assert(wanted[e].0 == i && wanted[e].1.len() == after[i]->0.len());
        } else {
            assert(after[i] == result[i]);
            let x = choose|x: int|
                0 <= x < wanted.len() && (#[trigger] wanted[x]).0 == i && wanted[x].1.len()
                    == result[i]->0.len();
            assert(wanted[x].0 == i && wanted[x].1.len() == after[i]->0.len());
        }
    }
}

/// Counting the first `upto` entries of a request keeps the number of slots
/// and the shape that the whole request gives.
pub proof fn lemma_entries_keep_shape<T: FeatureValue>(
    result: Seq<Option<Seq<int>>>,
    wanted: RequestView<T>,
    upto: int,
    doc: Seq<Option<T>>,
)
    requires
        0 <= upto <= wanted.len(),
        request_even(wanted),
        shaped(result, wanted),
    ensures
        counted_doc(result, wanted.take(upto), doc).len() == result.len(),
        shaped(counted_doc(result, wanted.take(upto), doc), wanted),
    decreases upto,
{
    if upto > 0 {
        assert(wanted.take(upto).drop_last() =~= wanted.take(upto - 1));
        assert(wanted.take(upto).last() == wanted[upto - 1]);
        lemma_entries_keep_shape(result, wanted, upto - 1, doc);
        lemma_entry_keeps_shape(
            counted_doc(result, wanted.take(upto - 1), doc),
            wanted,
            upto - 1,
            doc,
        );
    }
}

/// Counting documents keeps the number of slots and the shape that the
/// request gives.
pub proof fn lemma_docs_keep_shape<T: FeatureValue>(
    result: Seq<Option<Seq<int>>>,
    wanted: RequestView<T>,
    docs: Seq<Seq<Option<T>>>,
)
    requires
        request_even(wanted),
        shaped(result, wanted),
    ensures
        counted_docs(result, wanted, docs).len() == result.len(),
        shaped(counted_docs(result, wanted, docs), wanted),
    decreases docs.len(),
{
    if docs.len() > 0 {
        lemma_docs_keep_shape(result, wanted, docs.drop_last());
        let mid = counted_docs(result, wanted, docs.drop_last());
        lemma_entries_keep_shape(mid, wanted, wanted.len() as int, docs.last());
        assert(wanted.take(wanted.len() as int) =~= wanted);
    }
}

/// Two results of one shape over as many features can be summed, and the
/// sum has that shape.
pub proof fn lemma_shaped_results_merge<T: FeatureValue>(
    a: Seq<Option<Seq<int>>>,
    b: Seq<Option<Seq<int>>>,
    wanted: RequestView<T>,
)
    requires
        request_even(wanted),
        shaped(a, wanted),
        shaped(b, wanted),
        a.len() == b.len(),
    ensures
        mergeable(a, b),
        shaped(merged_fruit(a, b), wanted),
{
    assert forall|i: int| 0 <= i < a.len() implies slot_even(#[trigger] a[i], b[i]) by {
        if a[i] is Some && b[i] is Some {
            let x = choose|x: int|
                0 <= x < wanted.len() && (#[trigger] wanted[x]).0 == i && wanted[x].1.len()
                    == a[i]->0.len();
            let y = choose|y: int|
                0 <= y < wanted.len() && (#[trigger] wanted[y]).0 == i && wanted[y].1.len()
                    == b[i]->0.len();
            assert(wanted[x].1.len() == wanted[y].1.len());
        }
    }
    let m = merged_fruit(a, b);
    assert forall|i: int| 0 <= i < m.len() && (#[trigger] m[i]) is Some implies exists|e: int|
        0 <= e < wanted.len() && (#[trigger] wanted[e]).0 == i && wanted[e].1.len()
            == m[i]->0.len() by {
        if a[i] is Some {
            let x = choose|x: int|
                0 <= x < wanted.len() && (#[trigger] wanted[x]).0 == i && wanted[x].1.len()
                    == a[i]->0.len();
            assert(wanted[x].0 == i && wanted[x].1.len() == m[i]->0.len());
        } else {
            let y = choose|y: int|
                0 <= y < wanted.len() && (#[trigger] wanted[y]).0 == i && wanted[y].1.len()
                    == b[i]->0.len();
            assert(wanted[y].0 == i && wanted[y].1.len() == m[i]->0.len());
        }
    }
}

/// Counting one request entry on top of a sum is the sum with the entry
/// counted on one side.
pub proof fn lemma_entry_over_sum<T: FeatureValue>(
    a: Seq<Option<Seq<int>>>,
    b: Seq<Option<Seq<int>>>,
    wanted: RequestView<T>,
    e: int,
    doc: Seq<Option<T>>,
)
    requires
        0 <= e < wanted.len(),
        request_even(wanted),
        shaped(a, wanted),
        shaped(b, wanted),
        a.len() == b.len(),
    ensures
        counted_entry(merged_fruit(a, b), wanted[e].0, wanted[e].1, doc) == merged_fruit(
            a,
            counted_entry(b, wanted[e].0, wanted[e].1, doc),
        ),
{
    let feat = wanted[e].0;
    let ranges = wanted[e].1;
    let left = counted_entry(merged_fruit(a, b), feat, ranges, doc);
    let right = merged_fruit(a, counted_entry(b, feat, ranges, doc));
    lemma_shaped_results_merge(a, b, wanted);
    if feat < b.len() && feat < doc.len() && doc[feat as int] is Some && any_hit(
        ranges,
        doc[feat as int]->0,
    ) {
        let v = doc[feat as int]->0;
        let i = feat as int;
        if a[i] is Some {
            let x = choose|x: int|
                0 <= x < wanted.len() && (#[trigger] wanted[x]).0 == i && wanted[x].1.len()
                    == a[i]->0.len();
            assert(wanted[x].1.len() == ranges.len());
        }
        if b[i] is Some {
            let y = choose|y: int|
                0 <= y < wanted.len() && (#[trigger] wanted[y]).0 == i && wanted[y].1.len()
                    == b[i]->0.len();
            assert(wanted[y].1.len() == ranges.len());
        }
        assert(left[i] is Some && right[i] is Some);
        assert(left[i]->0 =~= right[i]->0);
        assert(left =~= right);
    } else {
        assert(left =~= right);
    }
}

/// Counting the first `upto` entries of a request for one document on top
/// of a sum is the sum with them counted on one side.
pub proof fn lemma_entries_over_sum<T: FeatureValue>(
    a: Seq<Option<Seq<int>>>,
    b: Seq<Option<Seq<int>>>,
    wanted: RequestView<T>,
    upto: int,
    doc: Seq<Option<T>>,
)
    requires
        0 <= upto <= wanted.len(),
        request_even(wanted),
        shaped(a, wanted),
        shaped(b, wanted),
        a.len() == b.len(),
    ensures
        counted_doc(merged_fruit(a, b), wanted.take(upto), doc) == merged_fruit(
            a,
            counted_doc(b, wanted.take(upto), doc),
        ),
    decreases upto,
{
    if upto > 0 {
        assert(wanted.take(upto).drop_last() =~= wanted.take(upto - 1));
        assert(wanted.take(upto).last() == wanted[upto - 1]);
        lemma_entries_over_sum(a, b, wanted, upto - 1, doc);
        lemma_entries_keep_shape(b, wanted, upto - 1, doc);
        lemma_entry_over_sum(
            a,
            counted_doc(b, wanted.take(upto - 1), doc),
            wanted,
            upto - 1,
            doc,
        );
    }
}

/// Counting documents on top of a sum is the sum with the documents counted
/// on one side.
pub proof fn lemma_docs_over_sum<T: FeatureValue>(
    a: Seq<Option<Seq<int>>>,
    b: Seq<Option<Seq<int>>>,
    wanted: RequestView<T>,
    docs: Seq<Seq<Option<T>>>,
)
    requires
        request_even(wanted),
        shaped(a, wanted),
        shaped(b, wanted),
        a.len() == b.len(),
    ensures
        counted_docs(merged_fruit(a, b), wanted, docs) == merged_fruit(
            a,
            counted_docs(b, wanted, docs),
        ),
    decreases docs.len(),
{
    if docs.len() > 0 {
        let rest = docs.drop_last();
        lemma_docs_over_sum(a, b, wanted, rest);
        lemma_docs_keep_shape(b, wanted, rest);
        lemma_entries_over_sum(
            a,
            counted_docs(b, wanted, rest),
            wanted,
            wanted.len() as int,
            docs.last(),
        );
        assert(wanted.take(wanted.len() as int) =~= wanted);
    }
}

/// Counting `first` and then `second` is counting the two in one go.
pub proof fn lemma_counting_continues<T: FeatureValue>(
    result: Seq<Option<Seq<int>>>,
    wanted: RequestView<T>,
    first: Seq<Seq<Option<T>>>,
    second: Seq<Seq<Option<T>>>,
)
    ensures
        counted_docs(result, wanted, first + second) == counted_docs(
            counted_docs(result, wanted, first),
            wanted,
            second,
        ),
    decreases second.len(),
{
    if second.len() == 0 {
        assert(first + second =~= first);
    } else {
        assert((first + second).drop_last() =~= first + second.drop_last());
        assert((first + second).last() == second.last());
        lemma_counting_continues(result, wanted, first, second.drop_last());
    }
}

/// Splitting a corpus into two segments, counting each from empty counts and
/// summing the two results gives what counting the whole corpus gives; and
/// the two results can always be summed.
pub proof fn lemma_two_segments_sum_to_whole<T: FeatureValue>(
    n: nat,
    wanted: RequestView<T>,
    first: Seq<Seq<Option<T>>>,
    second: Seq<Seq<Option<T>>>,
)
    requires
        request_even(wanted),
    ensures
        mergeable(
            counted_docs(empty_fruit(n), wanted, first),
            counted_docs(empty_fruit(n), wanted, second),
        ),
        merged_fruit(
            counted_docs(empty_fruit(n), wanted, first),
            counted_docs(empty_fruit(n), wanted, second),
        ) == counted_docs(empty_fruit(n), wanted, first + second),
{
    let empty = empty_fruit(n);
    let a = counted_docs(empty, wanted, first);
    let b = counted_docs(empty, wanted, second);
    assert(shaped(empty, wanted));
    lemma_docs_keep_shape(empty, wanted, first);
    lemma_docs_keep_shape(empty, wanted, second);
    lemma_shaped_results_merge(a, b, wanted);
    lemma_counting_continues(empty, wanted, first, second);
    assert(merged_fruit(a, empty) =~= a);
    lemma_docs_over_sum(a, empty, wanted, second);
}

/// However a corpus is split into segments, summing the segments' results
/// in order, from empty counts, succeeds and gives what counting the whole
/// corpus in one segment gives.
pub proof fn lemma_segments_sum_to_whole<T: FeatureValue>(
    n: nat,
    wanted: RequestView<T>,
    segments: Seq<Seq<Seq<Option<T>>>>,
)
    requires
        request_even(wanted),
    ensures
        merged_children(empty_fruit(n), segment_fruits(n, wanted, segments)) == Ok::<
            Seq<Option<Seq<int>>>,
            crate::error::MergeError,
        >(counted_docs(empty_fruit(n), wanted, all_docs(segments))),
    decreases segments.len(),
{
    let empty = empty_fruit(n);
    let fruits = segment_fruits(n, wanted, segments);
    if segments.len() > 0 {
        let rest = segments.drop_last();
        lemma_segments_sum_to_whole(n, wanted, rest);
        assert(fruits.drop_last() =~= segment_fruits(n, wanted, rest));
        assert(fruits.last() == counted_docs(empty, wanted, segments.last()));
        lemma_two_segments_sum_to_whole(n, wanted, all_docs(rest), segments.last());
        let sum = counted_docs(empty, wanted, all_docs(rest));
        assert(shaped(empty, wanted));
        lemma_docs_keep_shape(empty, wanted, all_docs(rest));
        lemma_docs_keep_shape(empty, wanted, segments.last());
    }
}

} // verus!
