//! What holds of paging through a result list with cursors.

use vstd::prelude::*;
use crate::index::{next_cursor, After};
use crate::search::top_collector::{
    admitted, admitted_docs, all_items, inserted, lemma_place_is, lemma_place_of,
    lemma_top_inserted, page_of, place_of, ranked, ranks_before, sum_total, sum_visited, top,
    CollectionResult, SearchMarker,
};

verus! {

/// Every document of `list` comes before those behind it.
pub open spec fn in_order(list: Seq<SearchMarker>) -> bool {
    forall|i: int, j: int| 0 <= i < j < list.len() ==> ranks_before(list[i], list[j])
}

/// `a` and `b` hold the same documents.
pub open spec fn same_docs(a: Seq<SearchMarker>, b: Seq<SearchMarker>) -> bool {
    forall|d: SearchMarker| a.contains(d) <==> b.contains(d)
}

/// No document of `docs` has both score and id zero, which is how the start
/// of a result list is written.
pub open spec fn none_like_start(docs: Seq<SearchMarker>) -> bool {
    forall|i: int| 0 <= i < docs.len() ==> !((#[trigger] docs[i]).score == 0 && docs[i].id == 0)
}

/// The cursor behind `doc`.
pub open spec fn cursor_behind(doc: SearchMarker) -> After {
    After(doc.score, doc.id)
}

/// The pages that following the cursors gives, one behind the other: the
/// page behind `after`, then, while a page hands out a cursor and `pages`
/// are left, the page behind that cursor.
pub open spec fn walked(docs: Seq<SearchMarker>, after: After, limit: nat, pages: nat) -> Seq<
    SearchMarker,
>
    decreases pages,
{
    if pages == 0 {
        Seq::empty()
    } else {
        let page = page_of(docs, after, limit);
        match next_cursor(admitted_docs(docs, after).len(), page) {
            Some(next) => page + walked(docs, next, limit, (pages - 1) as nat),
            None => page,
        }
    }
}

/// A list with one more document put in holds that document and those it
/// held.
pub proof fn lemma_inserted_docs(list: Seq<SearchMarker>, doc: SearchMarker)
    ensures
        inserted(list, doc).len() == list.len() + 1,
        forall|d: SearchMarker| inserted(list, doc).contains(d) <==> (d == doc || list.contains(d)),
{
    lemma_place_of(list, doc);
    let p = place_of(list, doc) as int;
    let after = inserted(list, doc);
    assert forall|d: SearchMarker| after.contains(d) <==> (d == doc || list.contains(d)) by {
        if after.contains(d) {
            let i = choose|i: int| 0 <= i < after.len() && after[i] == d;
            if i < p {
                assert(list[i] == d);
            } else if i > p {
                assert(list[i - 1] == d);
            }
        }
        if d == doc {
            assert(after[p] == d);
        }
        if list.contains(d) {
            let i = choose|i: int| 0 <= i < list.len() && list[i] == d;
            if i < p {
                assert(after[i] == d);
            } else {
                assert(after[i + 1] == d);
            }
        }
    }
}

/// A list in order stays in order when a document that it does not hold is
/// put in.
pub proof fn lemma_inserted_in_order(list: Seq<SearchMarker>, doc: SearchMarker)
    requires
        in_order(list),
        !list.contains(doc),
    ensures
        in_order(inserted(list, doc)),
{
    lemma_place_of(list, doc);
    let p = place_of(list, doc) as int;
    let after = inserted(list, doc);
    assert forall|i: int, j: int| 0 <= i < j < after.len() implies ranks_before(
        after[i],
        after[j],
    ) by {
        if j == p {
            assert(after[i] == list[i]);
            assert(list.contains(list[i]));
            assert(!ranks_before(doc, list[i]));
        } else if i == p {
            assert(after[j] == list[j - 1]);
            if j - 1 > p {
                assert(ranks_before(list[p], list[j - 1]));
            }
        } else {
            let a = if i < p {
                i
            } else {
                i - 1
            };
            let b = if j < p {
                j
            } else {
                j - 1
            };
            assert(after[i] == list[a] && after[j] == list[b]);
        }
    }
}

/// The result list of documents holds the same documents, as many, and,
/// where no document occurs twice, in order.
pub proof fn lemma_ranked(docs: Seq<SearchMarker>)
    ensures
        ranked(docs).len() == docs.len(),
        same_docs(ranked(docs), docs),
        docs.no_duplicates() ==> in_order(ranked(docs)),
    decreases docs.len(),
{
    if docs.len() > 0 {
        let rest = docs.drop_last();
        let last = docs.last();
        lemma_ranked(rest);
        lemma_inserted_docs(ranked(rest), last);
        assert forall|d: SearchMarker| ranked(docs).contains(d) <==> docs.contains(d) by {
            if docs.contains(d) {
                let i = choose|i: int| 0 <= i < docs.len() && docs[i] == d;
                if i < rest.len() {
                    assert(rest[i] == d);
                }
            }
            if rest.contains(d) {
                let i = choose|i: int| 0 <= i < rest.len() && rest[i] == d;
                assert(docs[i] == d);
            }
            if d == last {
                assert(docs[docs.len() - 1] == d);
            }
        }
        if docs.no_duplicates() {
            assert(rest.no_duplicates());
            if rest.contains(last) {
                let i = choose|i: int| 0 <= i < rest.len() && rest[i] == last;
                assert(docs[i] == docs[docs.len() - 1]);
            }
            lemma_inserted_in_order(ranked(rest), last);
        }
    }
}

/// Two lists in order that hold the same documents are the same list.
pub proof fn lemma_one_order(a: Seq<SearchMarker>, b: Seq<SearchMarker>)
    requires
        in_order(a),
        in_order(b),
        same_docs(a, b),
    ensures
        a == b,
    decreases a.len(),
{
    if a.len() == 0 {
        if b.len() > 0 {
            assert(b.contains(b[0]));
        }
        assert(a =~= b);
    } else {
        assert(a.contains(a[0]));
        let j = choose|j: int| 0 <= j < b.len() && b[j] == a[0];
        assert(b.contains(b[0]));
        let i = choose|i: int| 0 <= i < a.len() && a[i] == b[0];
        if j > 0 {
            assert(ranks_before(b[0], b[j]));
            if i > 0 {
                assert(ranks_before(a[0], a[i]));
            }
        }
        assert(a[0] == b[0]);
        let ta = a.drop_first();
        let tb = b.drop_first();
        assert forall|d: SearchMarker| ta.contains(d) <==> tb.contains(d) by {
            if ta.contains(d) {
                let x = choose|x: int| 0 <= x < ta.len() && ta[x] == d;
                assert(a[x + 1] == d);
                assert(ranks_before(a[0], a[x + 1]));
                assert(a.contains(d));
                let y = choose|y: int| 0 <= y < b.len() && b[y] == d;
                assert(y > 0);
                assert(tb[y - 1] == d);
            }
            if tb.contains(d) {
                let y = choose|y: int| 0 <= y < tb.len() && tb[y] == d;
                assert(b[y + 1] == d);
                assert(ranks_before(b[0], b[y + 1]));
                assert(b.contains(d));
                let x = choose|x: int| 0 <= x < a.len() && a[x] == d;
                assert(x > 0);
                assert(ta[x - 1] == d);
            }
        }
        assert forall|x: int, y: int| 0 <= x < y < ta.len() implies ranks_before(ta[x], ta[y]) by {
            assert(ta[x] == a[x + 1] && ta[y] == a[y + 1]);
        }
        assert forall|x: int, y: int| 0 <= x < y < tb.len() implies ranks_before(tb[x], tb[y]) by {
            assert(tb[x] == b[x + 1] && tb[y] == b[y + 1]);
        }
        lemma_one_order(ta, tb);
        assert(a =~= seq![a[0]] + ta);
        assert(b =~= seq![b[0]] + tb);
    }
}

/// The documents behind a cursor are the documents that the cursor admits;
/// none occurs twice where none did.
pub proof fn lemma_admitted_docs(docs: Seq<SearchMarker>, after: After)
    ensures
        forall|d: SearchMarker|
            admitted_docs(docs, after).contains(d) <==> (docs.contains(d) && admitted(after, d)),
        docs.no_duplicates() ==> admitted_docs(docs, after).no_duplicates(),
    decreases docs.len(),
{
    let kept = admitted_docs(docs, after);
    if docs.len() > 0 {
        let rest = docs.drop_last();
        let last = docs.last();
        let before = admitted_docs(rest, after);
        lemma_admitted_docs(rest, after);
        assert forall|d: SearchMarker| kept.contains(d) <==> (docs.contains(d) && admitted(
            after,
            d,
        )) by {
            if kept.contains(d) {
                let i = choose|i: int| 0 <= i < kept.len() && kept[i] == d;
                if i < before.len() {
                    assert(before[i] == d);
                    assert(admitted_docs(rest, after).contains(d));
                    assert(rest.contains(d) && admitted(after, d));
                    let j = choose|j: int| 0 <= j < rest.len() && rest[j] == d;
                    assert(docs[j] == d);
                } else {
                    assert(d == last);
                    assert(docs[docs.len() - 1] == d);
                }
            }
            if docs.contains(d) && admitted(after, d) {
                let j = choose|j: int| 0 <= j < docs.len() && docs[j] == d;
                if j < rest.len() {
                    assert(rest[j] == d);
                    assert(rest.contains(d));
                    assert(admitted_docs(rest, after).contains(d));
                    let i = choose|i: int| 0 <= i < before.len() && before[i] == d;
                    assert(kept[i] == d);
                } else {
                    assert(kept[kept.len() - 1] == d);
                }
            }
        }
        if docs.no_duplicates() {
            assert(rest.no_duplicates());
            if admitted(after, last) {
                assert forall|i: int, j: int|
                    0 <= i < kept.len() && 0 <= j < kept.len() && i != j implies kept[i]
                    != kept[j] by {
                    if i == kept.len() - 1 || j == kept.len() - 1 {
                        let o = if i == kept.len() - 1 {
                            j
                        } else {
                            i
                        };
                        if before[o] == last {
                            assert(before.contains(last));
                            let x = choose|x: int| 0 <= x < rest.len() && rest[x] == last;
                            assert(docs[x] == docs[docs.len() - 1]);
                        }
                    }
                }
            }
        }
    }
}

/// Behind the start come all documents: the first page is the head of the
/// whole result list.
pub proof fn lemma_first_page(docs: Seq<SearchMarker>, limit: nat)
    ensures
        admitted_docs(docs, After(0, 0)) == docs,
        page_of(docs, After(0, 0), limit) == top(ranked(docs), limit),
    decreases docs.len(),
{
    if docs.len() > 0 {
        lemma_first_page(docs.drop_last(), limit);
        assert(docs.drop_last().push(docs.last()) =~= docs);
    }
}

/// Behind the cursor of the document at place `k` of the result list come
/// the documents behind place `k`, and no others: the page behind that
/// cursor is the head of the rest of the list.
pub proof fn lemma_next_page(docs: Seq<SearchMarker>, k: int, limit: nat)
    requires
        docs.no_duplicates(),
        none_like_start(docs),
        0 <= k < docs.len(),
    ensures
        ranked(docs).len() == docs.len(),
        ranked(admitted_docs(docs, cursor_behind(ranked(docs)[k]))) == ranked(docs).subrange(
            k + 1,
            docs.len() as int,
        ),
        admitted_docs(docs, cursor_behind(ranked(docs)[k])).len() == docs.len() - k - 1,
        page_of(docs, cursor_behind(ranked(docs)[k]), limit) == top(
            ranked(docs).subrange(k + 1, docs.len() as int),
            limit,
        ),
{
    let list = ranked(docs);
    lemma_ranked(docs);
    let last = list[k];
    let after = cursor_behind(last);
    assert(list.contains(last));
    let at = choose|i: int| 0 <= i < docs.len() && docs[i] == last;
    assert(!(after.0 == 0 && after.1 == 0));
    let kept = admitted_docs(docs, after);
    lemma_admitted_docs(docs, after);
    lemma_ranked(kept);
    let rest = list.subrange(k + 1, docs.len() as int);
    assert forall|i: int, j: int| 0 <= i < j < rest.len() implies ranks_before(rest[i], rest[j]) by {
        assert(rest[i] == list[k + 1 + i] && rest[j] == list[k + 1 + j]);
    }
    assert forall|d: SearchMarker| ranked(kept).contains(d) <==> rest.contains(d) by {
        assert(ranked(kept).contains(d) <==> kept.contains(d));
        if kept.contains(d) {
            assert(admitted(after, d));
            assert(ranks_before(last, d));
            assert(list.contains(d));
            let j = choose|j: int| 0 <= j < list.len() && list[j] == d;
            if j < k {
                assert(ranks_before(list[j], list[k]));
            }
            assert(j > k);
            assert(rest[j - k - 1] == d);
        }
        if rest.contains(d) {
            let j = choose|j: int| 0 <= j < rest.len() && rest[j] == d;
            assert(list[k + 1 + j] == d);
            assert(ranks_before(list[k], list[k + 1 + j]));
            assert(list.contains(d));
            assert(docs.contains(d));
            assert(admitted(after, d));
        }
    }
    lemma_one_order(ranked(kept), rest);
}

/// Following the cursors from the document at place `k` of the result list
/// on, for as many pages as documents are left, gives the rest of the list:
/// each document behind place `k` once, in the order of the list.
pub proof fn lemma_walk_from(docs: Seq<SearchMarker>, k: int, limit: nat, pages: nat)
    requires
        docs.no_duplicates(),
        none_like_start(docs),
        limit > 0,
        0 <= k < docs.len(),
        pages >= docs.len() - k,
    ensures
        walked(docs, cursor_behind(ranked(docs)[k]), limit, pages) == ranked(docs).subrange(
            k + 1,
            docs.len() as int,
        ),
    decreases docs.len() - k,
{
    let list = ranked(docs);
    let n = docs.len() as int;
    let after = cursor_behind(list[k]);
    lemma_next_page(docs, k, limit);
    let rest = list.subrange(k + 1, n);
    let page = page_of(docs, after, limit);
    if limit < rest.len() {
        let next = k + limit;
        assert(page.last() == list[next]);
        lemma_walk_from(docs, next, limit, (pages - 1) as nat);
        assert(page + list.subrange(next + 1, n) =~= rest);
    } else {
        assert(page == rest);
    }
}

/// Paging from the start with the cursor that each page hands out, for as
/// many pages as there are documents and one more, visits every matching
/// document exactly once, in the order of the result list.
pub proof fn lemma_walk_visits_all_once(docs: Seq<SearchMarker>, limit: nat, pages: nat)
    requires
        docs.no_duplicates(),
        none_like_start(docs),
        limit > 0,
        pages > docs.len(),
    ensures
        walked(docs, After(0, 0), limit, pages) == ranked(docs),
        in_order(ranked(docs)),
        same_docs(ranked(docs), docs),
        ranked(docs).len() == docs.len(),
{
    let list = ranked(docs);
    let n = docs.len() as int;
    lemma_ranked(docs);
    lemma_first_page(docs, limit);
    let page = page_of(docs, After(0, 0), limit);
    if limit < n {
        let next = limit - 1;
        assert(page.last() == list[next]);
        lemma_walk_from(docs, next, limit, (pages - 1) as nat);
        assert(page + list.subrange(next + 1, n) =~= list);
    } else {
        assert(page == list);
    }
}

/// The result list does not depend on the order in which the documents
/// were found: two corpora with the same documents, none twice, give the
/// same list, and so the same page behind every cursor with the same
/// documents behind it.
pub proof fn lemma_order_found_is_irrelevant(
    found: Seq<SearchMarker>,
    other: Seq<SearchMarker>,
    after: After,
    limit: nat,
)
    requires
        found.no_duplicates(),
        other.no_duplicates(),
        same_docs(found, other),
    ensures
        ranked(found) == ranked(other),
        page_of(found, after, limit) == page_of(other, after, limit),
{
    lemma_ranked(found);
    lemma_ranked(other);
    lemma_one_order(ranked(found), ranked(other));
    let a = admitted_docs(found, after);
    let b = admitted_docs(other, after);
    lemma_admitted_docs(found, after);
    lemma_admitted_docs(other, after);
    lemma_ranked(a);
    lemma_ranked(b);
    assert forall|d: SearchMarker| ranked(a).contains(d) <==> ranked(b).contains(d) by {
        assert(ranked(a).contains(d) <==> a.contains(d));
        assert(ranked(b).contains(d) <==> b.contains(d));
        assert(a.contains(d) <==> (found.contains(d) && admitted(after, d)));
        assert(b.contains(d) <==> (other.contains(d) && admitted(after, d)));
    }
    lemma_one_order(ranked(a), ranked(b));
}

/// No document of `list` comes before one that stands before it.
pub open spec fn ordered(list: Seq<SearchMarker>) -> bool {
    forall|i: int, j: int| 0 <= i < j < list.len() ==> !ranks_before(list[j], list[i])
}

/// The documents of all `segments`, first segment first.
pub open spec fn all_found(segments: Seq<Seq<SearchMarker>>) -> Seq<SearchMarker>
    decreases segments.len(),
{
    if segments.len() == 0 {
        Seq::empty()
    } else {
        all_found(segments.drop_last()) + segments.last()
    }
}

/// Each result is what a collector with this cursor and limit has after the
/// documents of its segment.
pub open spec fn collected_from(
    results: Seq<CollectionResult>,
    segments: Seq<Seq<SearchMarker>>,
    after: After,
    limit: nat,
) -> bool {
    &&& results.len() == segments.len()
    &&& forall|i: int|
        0 <= i < results.len() ==> {
            &&& (#[trigger] results[i]).total == segments[i].len()
            &&& results[i].visited == admitted_docs(segments[i], after).len()
            &&& results[i].items@ == page_of(segments[i], after, limit)
        }
}

/// An ordered list stays ordered when a document is put in.
pub proof fn lemma_inserted_ordered(list: Seq<SearchMarker>, doc: SearchMarker)
    requires
        ordered(list),
    ensures
        ordered(inserted(list, doc)),
{
    lemma_place_of(list, doc);
    let p = place_of(list, doc) as int;
    let after = inserted(list, doc);
    assert forall|i: int, j: int| 0 <= i < j < after.len() implies !ranks_before(
        after[j],
        after[i],
    ) by {
        if j == p {
            assert(after[i] == list[i]);
        } else if i == p {
            assert(after[j] == list[j - 1]);
            if j - 1 > p {
                assert(!ranks_before(list[j - 1], list[p]));
            }
        } else {
            let a = if i < p {
                i
            } else {
                i - 1
            };
            let b = if j < p {
                j
            } else {
                j - 1
            };
            assert(after[i] == list[a] && after[j] == list[b]);
        }
    }
}

/// A result list is ordered, whatever the documents.
pub proof fn lemma_ranked_ordered(docs: Seq<SearchMarker>)
    ensures
        ordered(ranked(docs)),
    decreases docs.len(),
{
    if docs.len() > 0 {
        lemma_ranked_ordered(docs.drop_last());
        lemma_inserted_ordered(ranked(docs.drop_last()), docs.last());
    }
}

/// The result list of an ordered list is the list itself.
pub proof fn lemma_ranked_of_ordered(list: Seq<SearchMarker>)
    requires
        ordered(list),
    ensures
        ranked(list) == list,
    decreases list.len(),
{
    if list.len() > 0 {
        let rest = list.drop_last();
        assert forall|i: int, j: int| 0 <= i < j < rest.len() implies !ranks_before(
            rest[j],
            rest[i],
        ) by {
            assert(rest[i] == list[i] && rest[j] == list[j]);
        }
        lemma_ranked_of_ordered(rest);
        assert forall|i: int| 0 <= i < rest.len() implies !ranks_before(
            list.last(),
            #[trigger] rest[i],
        ) by {
            assert(rest[i] == list[i]);
        }
        lemma_place_is(rest, list.last(), rest.len() as int);
        assert(rest.insert(rest.len() as int, list.last()) =~= list);
    } else {
        assert(ranked(list) =~= list);
    }
}

/// For the best `limit` of two lists together, only the best `limit` of
/// the first list matter.
pub proof fn lemma_best_of_first_suffice(
    first: Seq<SearchMarker>,
    second: Seq<SearchMarker>,
    limit: nat,
)
    requires
        limit > 0,
    ensures
        top(ranked(first + second), limit) == top(
            ranked(top(ranked(first), limit) + second),
            limit,
        ),
    decreases second.len(),
{
    let head = top(ranked(first), limit);
    if second.len() == 0 {
        assert(first + second =~= first);
        assert(head + second =~= head);
        lemma_ranked_ordered(first);
        assert(ordered(head)) by {
            assert forall|i: int, j: int| 0 <= i < j < head.len() implies !ranks_before(
                head[j],
                head[i],
            ) by {
                assert(head[i] == ranked(first)[i] && head[j] == ranked(first)[j]);
            }
        }
        lemma_ranked_of_ordered(head);
    } else {
        let rest = second.drop_last();
        let doc = second.last();
        assert((first + second).drop_last() =~= first + rest);
        assert((head + second).drop_last() =~= head + rest);
        lemma_best_of_first_suffice(first, rest, limit);
        lemma_top_inserted(ranked(first + rest), doc, limit);
        lemma_top_inserted(ranked(head + rest), doc, limit);
    }
}

/// Two lists without a document twice, and without a document in both,
/// make one list without a document twice; and the other way round.
pub proof fn lemma_apart(a: Seq<SearchMarker>, b: Seq<SearchMarker>)
    ensures
        (a + b).no_duplicates() <==> (a.no_duplicates() && b.no_duplicates() && forall|
            d: SearchMarker,
        |
            a.contains(d) ==> !b.contains(d)),
{
    let both = a + b;
    if both.no_duplicates() {
        assert forall|i: int, j: int| 0 <= i < a.len() && 0 <= j < a.len() && i != j implies a[i]
            != a[j] by {
            assert(both[i] == a[i] && both[j] == a[j]);
        }
        assert forall|i: int, j: int| 0 <= i < b.len() && 0 <= j < b.len() && i != j implies b[i]
            != b[j] by {
            assert(both[a.len() + i] == b[i] && both[a.len() + j] == b[j]);
        }
        assert forall|d: SearchMarker| a.contains(d) implies !b.contains(d) by {
            if b.contains(d) {
                let i = choose|i: int| 0 <= i < a.len() && a[i] == d;
                let j = choose|j: int| 0 <= j < b.len() && b[j] == d;
                assert(both[i] == d && both[a.len() + j] == d);
            }
        }
    }
    if a.no_duplicates() && b.no_duplicates() && forall|d: SearchMarker|
        a.contains(d) ==> !b.contains(d) {
        assert forall|i: int, j: int|
            0 <= i < both.len() && 0 <= j < both.len() && i != j implies both[i] != both[j] by {
            if i < a.len() && j >= a.len() {
                assert(a.contains(a[i]));
                assert(b.contains(b[j - a.len()]));
            } else if j < a.len() && i >= a.len() {
                assert(a.contains(a[j]));
                assert(b.contains(b[i - a.len()]));
            }
        }
    }
}

/// The result list of two lists together does not depend on which of the
/// two comes first, where no document occurs twice.
pub proof fn lemma_ranked_either_way(a: Seq<SearchMarker>, b: Seq<SearchMarker>)
    requires
        (a + b).no_duplicates(),
    ensures
        ranked(a + b) == ranked(b + a),
{
    lemma_apart(a, b);
    lemma_apart(b, a);
    lemma_ranked(a + b);
    lemma_ranked(b + a);
    assert forall|d: SearchMarker| (a + b).contains(d) <==> (b + a).contains(d) by {
        if (a + b).contains(d) {
            let i = choose|i: int| 0 <= i < (a + b).len() && (a + b)[i] == d;
            if i < a.len() {
                assert((b + a)[b.len() + i] == d);
            } else {
                assert((b + a)[i - a.len()] == d);
            }
        }
        if (b + a).contains(d) {
            let i = choose|i: int| 0 <= i < (b + a).len() && (b + a)[i] == d;
            if i < b.len() {
                assert((a + b)[a.len() + i] == d);
            } else {
                assert((a + b)[i - b.len()] == d);
            }
        }
    }
    lemma_one_order(ranked(a + b), ranked(b + a));
}

/// The documents behind a cursor in two lists together are those of the
/// first list and then those of the second.
pub proof fn lemma_admitted_together(a: Seq<SearchMarker>, b: Seq<SearchMarker>, after: After)
    ensures
        admitted_docs(a + b, after) == admitted_docs(a, after) + admitted_docs(b, after),
    decreases b.len(),
{
    if b.len() == 0 {
        assert(a + b =~= a);
        assert(admitted_docs(a, after) + admitted_docs(b, after) =~= admitted_docs(a, after));
    } else {
        assert((a + b).drop_last() =~= a + b.drop_last());
        assert((a + b).last() == b.last());
        lemma_admitted_together(a, b.drop_last(), after);
        if admitted(after, b.last()) {
            assert((admitted_docs(a, after) + admitted_docs(b.drop_last(), after)).push(b.last())
                =~= admitted_docs(a, after) + admitted_docs(b, after));
        }
    }
}

/// The head of a list in order holds no document twice, and only documents
/// of the list.
pub proof fn lemma_top_of_in_order(list: Seq<SearchMarker>, limit: nat)
    requires
        in_order(list),
    ensures
        top(list, limit).no_duplicates(),
        forall|d: SearchMarker| top(list, limit).contains(d) ==> list.contains(d),
{
    let head = top(list, limit);
    assert forall|i: int, j: int|
        0 <= i < head.len() && 0 <= j < head.len() && i != j implies head[i] != head[j] by {
        assert(head[i] == list[i] && head[j] == list[j]);
        if i < j {
            assert(ranks_before(list[i], list[j]));
        } else {
            assert(ranks_before(list[j], list[i]));
        }
    }
    assert forall|d: SearchMarker| head.contains(d) implies list.contains(d) by {
        let i = choose|i: int| 0 <= i < head.len() && head[i] == d;
        assert(list[i] == d);
    }
}

/// The page of two segments together is the best of the pages of the two:
/// nothing is lost by keeping only a page of each segment.
pub proof fn lemma_two_segments_page(
    first: Seq<SearchMarker>,
    second: Seq<SearchMarker>,
    after: After,
    limit: nat,
)
    requires
        limit > 0,
        (first + second).no_duplicates(),
    ensures
        top(ranked(page_of(first, after, limit) + page_of(second, after, limit)), limit)
            == page_of(first + second, after, limit),
        admitted_docs(first + second, after).len() == admitted_docs(first, after).len()
            + admitted_docs(second, after).len(),
{
    let x = admitted_docs(first, after);
    let y = admitted_docs(second, after);
    let a = top(ranked(x), limit);
    let b = top(ranked(y), limit);
    lemma_admitted_together(first, second, after);
    lemma_admitted_docs(first + second, after);
    assert((x + y).no_duplicates());
    lemma_apart(x, y);
    lemma_ranked(x);
    lemma_ranked(y);
    lemma_top_of_in_order(ranked(x), limit);
    lemma_top_of_in_order(ranked(y), limit);
    assert((a + y).no_duplicates()) by {
        assert forall|d: SearchMarker| a.contains(d) implies !y.contains(d) by {
            assert(ranked(x).contains(d));
            assert(x.contains(d));
        }
        lemma_apart(a, y);
    }
    assert((b + a).no_duplicates()) by {
        assert forall|d: SearchMarker| b.contains(d) implies !a.contains(d) by {
            assert(ranked(y).contains(d));
            assert(y.contains(d));
            if a.contains(d) {
                assert(ranked(x).contains(d));
                assert(x.contains(d));
            }
        }
        lemma_apart(b, a);
    }
    lemma_best_of_first_suffice(x, y, limit);
    lemma_ranked_either_way(a, y);
    lemma_best_of_first_suffice(y, a, limit);
    lemma_ranked_either_way(b, a);
}

/// However the matching documents are spread over segments, merging what
/// the collectors of the segments found gives the counts and the page that
/// one collector over all documents gives.
pub proof fn lemma_segments_merge_to_page(
    results: Seq<CollectionResult>,
    segments: Seq<Seq<SearchMarker>>,
    after: After,
    limit: nat,
)
    requires
        limit > 0,
        all_found(segments).no_duplicates(),
        collected_from(results, segments, after, limit),
    ensures
        sum_total(results) == all_found(segments).len(),
        sum_visited(results) == admitted_docs(all_found(segments), after).len(),
        top(ranked(all_items(results)), limit) == page_of(all_found(segments), after, limit),
    decreases segments.len(),
{
    if segments.len() > 0 {
        let early = segments.drop_last();
        let done = results.drop_last();
        let found = all_found(early);
        let last = segments.last();
        assert(collected_from(done, early, after, limit)) by {
            assert forall|i: int| 0 <= i < done.len() implies {
                &&& (#[trigger] done[i]).total == early[i].len()
                &&& done[i].visited == admitted_docs(early[i], after).len()
                &&& done[i].items@ == page_of(early[i], after, limit)
            } by {
                assert(done[i] == results[i] && early[i] == segments[i]);
            }
        }
        lemma_apart(found, last);
        lemma_segments_merge_to_page(done, early, after, limit);
        assert(results.last() == results[results.len() - 1]);
        assert(segments.last() == segments[segments.len() - 1]);
        let page = page_of(last, after, limit);
        lemma_best_of_first_suffice(all_items(done), page, limit);
        lemma_two_segments_page(found, last, after, limit);
    }
}

} // verus!
