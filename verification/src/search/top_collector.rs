//! Keeps the best documents among those that come behind a cursor.

use vstd::prelude::*;
use crate::index::{comes_after, score_order, After};
use crate::model::RecipeId;

verus! {

/// A matching document: its score under the sort order and its id.
#[derive(Clone, Copy, Debug, PartialEq, Eq, Structural)]
pub struct SearchMarker {
    pub score: u64,
    pub id: RecipeId,
}

/// What a collector has after the last document.
#[derive(Debug)]
pub struct CollectionResult {
    /// How many documents matched the query.
    pub total: usize,
    /// How many of them came behind the cursor.
    pub visited: usize,
    /// The best of those, best first.
    pub items: Vec<SearchMarker>,
}

/// `a` comes before `b` in a result list: the larger score first, the
/// smaller id first among equal scores.
pub open spec fn ranks_before(a: SearchMarker, b: SearchMarker) -> bool {
    a.score > b.score || (a.score == b.score && a.id < b.id)
}

/// The document comes behind the cursor.
pub open spec fn admitted(after: After, doc: SearchMarker) -> bool {
    comes_after(after, score_order(after.0, doc.score), doc.id)
}

/// The documents of `docs` that come behind the cursor, in the order of
/// `docs`.
pub open spec fn admitted_docs(docs: Seq<SearchMarker>, after: After) -> Seq<SearchMarker>
    decreases docs.len(),
{
    if docs.len() == 0 {
        Seq::empty()
    } else if admitted(after, docs.last()) {
        admitted_docs(docs.drop_last(), after).push(docs.last())
    } else {
        admitted_docs(docs.drop_last(), after)
    }
}

/// The first place of `list` whose document `doc` comes before; the end of
/// the list where there is none.
pub open spec fn place_of(list: Seq<SearchMarker>, doc: SearchMarker) -> nat
    decreases list.len(),
{
    if list.len() == 0 || ranks_before(doc, list[0]) {
        0
    } else {
        1 + place_of(list.drop_first(), doc)
    }
}

/// `list` with `doc` put in at its place.
pub open spec fn inserted(list: Seq<SearchMarker>, doc: SearchMarker) -> Seq<SearchMarker> {
    list.insert(place_of(list, doc) as int, doc)
}

/// The documents of `docs` in the order of a result list.
pub open spec fn ranked(docs: Seq<SearchMarker>) -> Seq<SearchMarker>
    decreases docs.len(),
{
    if docs.len() == 0 {
        Seq::empty()
    } else {
        inserted(ranked(docs.drop_last()), docs.last())
    }
}

/// The first `limit` documents of `list`, or all of it where it has fewer.
pub open spec fn top(list: Seq<SearchMarker>, limit: nat) -> Seq<SearchMarker> {
    if limit < list.len() {
        list.take(limit as int)
    } else {
        list
    }
}

/// The page of at most `limit` documents that follows the cursor.
pub open spec fn page_of(docs: Seq<SearchMarker>, after: After, limit: nat) -> Seq<SearchMarker> {
    top(ranked(admitted_docs(docs, after)), limit)
}

/// The place of a document is inside the list or at its end; the documents
/// before the place do not come behind it, and the one at the place does.
pub proof fn lemma_place_of(list: Seq<SearchMarker>, doc: SearchMarker)
    ensures
        place_of(list, doc) <= list.len(),
        forall|i: int| 0 <= i < place_of(list, doc) ==> !ranks_before(doc, #[trigger] list[i]),
        place_of(list, doc) < list.len() ==> ranks_before(doc, list[place_of(list, doc) as int]),
    decreases list.len(),
{
    if list.len() == 0 || ranks_before(doc, list[0]) {
    } else {
        let rest = list.drop_first();
        lemma_place_of(rest, doc);
        assert forall|i: int| 0 <= i < place_of(list, doc) implies !ranks_before(
            doc,
            #[trigger] list[i],
        ) by {
            if i > 0 {
                assert(list[i] == rest[i - 1]);
            }
        }
        assert(place_of(list, doc) < list.len() ==> list[place_of(list, doc) as int] == rest[place_of(
            rest,
            doc,
        ) as int]);
    }
}

/// A place with the two properties of the place of a document is that
/// place.
pub proof fn lemma_place_is(list: Seq<SearchMarker>, doc: SearchMarker, p: int)
    requires
        0 <= p <= list.len(),
        forall|i: int| 0 <= i < p ==> !ranks_before(doc, #[trigger] list[i]),
        p < list.len() ==> ranks_before(doc, list[p]),
    ensures
        place_of(list, doc) == p,
{
    lemma_place_of(list, doc);
    let q = place_of(list, doc) as int;
    if q < p {
        assert(!ranks_before(doc, list[q]));
    } else if p < q {
        assert(!ranks_before(doc, list[p]));
    }
}

/// Putting a document into a list and keeping the first `limit` gives what
/// putting it into the first `limit` and keeping the first `limit` gives.
pub proof fn lemma_top_inserted(list: Seq<SearchMarker>, doc: SearchMarker, limit: nat)
    requires
        limit > 0,
    ensures
        top(inserted(list, doc), limit) == top(inserted(top(list, limit), doc), limit),
{
    if limit < list.len() {
        let head = list.take(limit as int);
        lemma_place_of(list, doc);
        let p = place_of(list, doc) as int;
        if p < limit {
            lemma_place_is(head, doc, p);
        } else {
            lemma_place_is(head, doc, limit as int);
        }
        assert(top(inserted(list, doc), limit) =~= top(inserted(head, doc), limit));
    }
}

/// Puts `doc` at its place among the `items`, which are at most `limit`, and
/// drops the last of them where that makes one too many.
pub fn keep_best(items: &mut Vec<SearchMarker>, doc: SearchMarker, limit: usize)
    requires
        limit > 0,
        old(items)@.len() <= limit,
    ensures
        final(items)@ == top(inserted(old(items)@, doc), limit as nat),
        final(items)@.len() <= limit,
{
    let len = items.len();
    let mut p: usize = 0;
    while p < len && !(doc.score > items[p].score || (doc.score == items[p].score && doc.id
        < items[p].id))
        invariant
            p <= len,
            len == items@.len(),
            items@ == old(items)@,
            forall|i: int| 0 <= i < p ==> !ranks_before(doc, #[trigger] items@[i]),
        decreases len - p,
    {
        p += 1;
    }
    proof {
        lemma_place_is(items@, doc, p as int);
    }
    if p < limit {
        items.insert(p, doc);
        if items.len() > limit {
            items.pop();
        }
    }
    assert(items@ =~= top(inserted(old(items)@, doc), limit as nat));
}

/// The kept documents of all `results`, first result first.
pub open spec fn all_items(results: Seq<CollectionResult>) -> Seq<SearchMarker>
    decreases results.len(),
{
    if results.len() == 0 {
        Seq::empty()
    } else {
        all_items(results.drop_last()) + results.last().items@
    }
}

/// How many documents the collectors of `results` were shown in all.
pub open spec fn sum_total(results: Seq<CollectionResult>) -> nat
    decreases results.len(),
{
    if results.len() == 0 {
        0
    } else {
        sum_total(results.drop_last()) + results.last().total as nat
    }
}

/// How many documents came behind the cursor in all `results`.
pub open spec fn sum_visited(results: Seq<CollectionResult>) -> nat
    decreases results.len(),
{
    if results.len() == 0 {
        0
    } else {
        sum_visited(results.drop_last()) + results.last().visited as nat
    }
}

/// The sums over the first `upto` results are not larger than those over
/// all.
pub proof fn lemma_sums_grow(results: Seq<CollectionResult>, upto: int)
    requires
        0 <= upto <= results.len(),
    ensures
        sum_total(results.take(upto)) <= sum_total(results),
        sum_visited(results.take(upto)) <= sum_visited(results),
    decreases results.len(),
{
    if upto == results.len() {
        assert(results.take(upto) =~= results);
    } else {
        assert(results.drop_last().take(upto) =~= results.take(upto));
        lemma_sums_grow(results.drop_last(), upto);
    }
}

impl CollectionResult {
    /// What the collectors of several segments found, as one result: the
    /// counts added up, and of all kept documents the best `limit`, best
    /// first.
    pub fn merge_fruits(results: Vec<CollectionResult>, limit: usize) -> (merged:
        CollectionResult)
        requires
            limit > 0,
            sum_total(results@) <= usize::MAX,
            sum_visited(results@) <= usize::MAX,
        ensures
            merged.total == sum_total(results@),
            merged.visited == sum_visited(results@),
            merged.items@ == top(ranked(all_items(results@)), limit as nat),
    {
        let mut total: usize = 0;
        let mut visited: usize = 0;
        let mut items: Vec<SearchMarker> = Vec::new();
        let mut i: usize = 0;
        while i < results.len()
            invariant
                i <= results@.len(),
                limit > 0,
                sum_total(results@) <= usize::MAX,
                sum_visited(results@) <= usize::MAX,
                total == sum_total(results@.take(i as int)),
                visited == sum_visited(results@.take(i as int)),
                items@ == top(ranked(all_items(results@.take(i as int))), limit as nat),
            decreases results@.len() - i,
        {
            let ghost done = all_items(results@.take(i as int));
            proof {
                assert(results@.take(i + 1).drop_last() =~= results@.take(i as int));
                assert(results@.take(i + 1).last() == results@[i as int]);
                lemma_sums_grow(results@, i + 1);
            }
            total = total + results[i].total;
            visited = visited + results[i].visited;
            let count = results[i].items.len();
            let mut j: usize = 0;
            assert(done + results@[i as int].items@.take(0) =~= done);
            while j < count
                invariant
                    j <= count,
                    i < results@.len(),
                    limit > 0,
                    count == results@[i as int].items@.len(),
                    done == all_items(results@.take(i as int)),
                    items@ == top(
                        ranked(done + results@[i as int].items@.take(j as int)),
                        limit as nat,
                    ),
                decreases count - j,
            {
                let doc = results[i].items[j];
                proof {
                    let so_far = done + results@[i as int].items@.take(j as int);
                    let next = done + results@[i as int].items@.take(j + 1);
                    assert(next.drop_last() =~= so_far);
                    assert(next.last() == doc);
                    lemma_top_inserted(ranked(so_far), doc, limit as nat);
                }
                keep_best(&mut items, doc, limit);
                j += 1;
            }
            assert(results@[i as int].items@.take(count as int) =~= results@[i as int].items@);
            i += 1;
        }
        assert(results@.take(i as int) =~= results@);
        CollectionResult { total, visited, items }
    }
}

/// Collects the best `limit` documents among those that come behind a
/// cursor, and counts the documents it is shown.
pub struct ConditionalTopCollector {
    limit: usize,
    after: After,
    total: usize,
    visited: usize,
    items: Vec<SearchMarker>,
    seen: Ghost<Seq<SearchMarker>>,
}

impl ConditionalTopCollector {
    /// The documents shown so far, in the order they were shown.
    pub closed spec fn docs(self) -> Seq<SearchMarker> {
        self.seen@
    }

    /// The cursor behind which documents are kept.
    pub closed spec fn cursor(self) -> After {
        self.after
    }

    /// How many documents are kept at most.
    pub closed spec fn capacity(self) -> nat {
        self.limit as nat
    }

    /// The counts and the kept documents are those of the documents shown.
    pub closed spec fn wf(self) -> bool {
        &&& self.limit > 0
        &&& self.total == self.seen@.len()
        &&& self.visited == admitted_docs(self.seen@, self.after).len()
        &&& self.items@ == page_of(self.seen@, self.after, self.limit as nat)
    }

    /// A collector that has been shown nothing.
    pub fn with_limit(limit: usize, after: After) -> (collector: ConditionalTopCollector)
        requires
            limit > 0,
        ensures
            collector.wf(),
            collector.docs() == Seq::<SearchMarker>::empty(),
            collector.cursor() == after,
            collector.capacity() == limit,
    {
        ConditionalTopCollector {
            limit,
            after,
            total: 0,
            visited: 0,
            items: Vec::new(),
            seen: Ghost(Seq::empty()),
        }
    }

    /// Shows the collector one more matching document.
    pub fn collect(&mut self, score: u64, id: RecipeId)
        requires
            old(self).wf(),
            old(self).docs().len() < usize::MAX,
        ensures
            final(self).wf(),
            final(self).docs() == old(self).docs().push(SearchMarker { score, id }),
            final(self).cursor() == old(self).cursor(),
            final(self).capacity() == old(self).capacity(),
    {
        let doc = SearchMarker { score, id };
        let ghost before = self.seen@;
        let ghost kept = admitted_docs(before, self.after);
        proof {
            assert(before.push(doc).drop_last() =~= before);
            lemma_admitted_len(before, self.after);
        }
        self.seen = Ghost(before.push(doc));
        self.total = self.total + 1;
        if !self.after.admits_unsigned(score, id) {
            return ;
        }
        self.visited = self.visited + 1;
        proof {
            lemma_top_inserted(ranked(kept), doc, self.limit as nat);
        }
        keep_best(&mut self.items, doc, self.limit);
        proof {
            assert(before.push(doc).last() == doc);
            assert(admitted_docs(before.push(doc), self.after) == kept.push(doc));
            assert(kept.push(doc).drop_last() =~= kept);
            assert(ranked(kept.push(doc)) == inserted(ranked(kept), doc));
        }
    }

    /// The counts and the kept documents.
    pub fn harvest(self) -> (result: CollectionResult)
        requires
            self.wf(),
        ensures
            result.total == self.docs().len(),
            result.visited == admitted_docs(self.docs(), self.cursor()).len(),
            result.items@ == page_of(self.docs(), self.cursor(), self.capacity()),
    {
        CollectionResult { total: self.total, visited: self.visited, items: self.items }
    }
}

/// No more documents come behind a cursor than there are.
pub proof fn lemma_admitted_len(docs: Seq<SearchMarker>, after: After)
    ensures
        admitted_docs(docs, after).len() <= docs.len(),
    decreases docs.len(),
{
    if docs.len() > 0 {
        lemma_admitted_len(docs.drop_last(), after);
    }
}

} // verus!
