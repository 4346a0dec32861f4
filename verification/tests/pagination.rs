use cantine::index::{After, RecipeIndex, SchemaError, ScoreOrder};
use cantine::model::{should_aggregate, ScoreKind, SearchCursor, SearchQuery, Sort};
use cantine::search::top_collector::{
    keep_best, CollectionResult, ConditionalTopCollector, SearchMarker,
};

fn index() -> RecipeIndex {
    RecipeIndex::try_from_fields(Some(0), Some(1), Some(2)).unwrap()
}

fn corpus() -> Vec<SearchMarker> {
    (1..=100u64)
        .map(|id| SearchMarker {
            score: 1 + (id * 7) % 3,
            id,
        })
        .collect()
}

#[test]
fn pagination_visits_every_document_once_in_order() {
    let docs = corpus();
    let mut seen: Vec<u64> = Vec::new();
    let mut after = After::start();
    let mut pages = 0;
    loop {
        let (total, ids, next) = index().search(&docs, 10, after);
        assert_eq!(total, 100);
        pages += 1;
        seen.extend(ids.iter());
        match next {
            Some(cursor) => {
                assert_eq!(ids.len(), 10);
                after = cursor;
            }
            None => break,
        }
    }
    assert_eq!(pages, 10);
    assert_eq!(seen.len(), 100);

    let mut expected = docs.clone();
    expected.sort_by(|a, b| b.score.cmp(&a.score).then(a.id.cmp(&b.id)));
    let expected: Vec<u64> = expected.iter().map(|d| d.id).collect();
    assert_eq!(seen, expected);

    let mut distinct = seen.clone();
    distinct.sort();
    distinct.dedup();
    assert_eq!(distinct.len(), 100);
}

#[test]
fn page_sizes_that_do_not_divide_the_corpus() {
    let docs = corpus();
    for limit in [1usize, 3, 7, 33, 99, 100, 101, 1000] {
        let mut seen = 0;
        let mut after = After::start();
        loop {
            let (total, ids, next) = index().search(&docs, limit, after);
            assert_eq!(total, 100);
            assert!(ids.len() <= limit);
            seen += ids.len();
            match next {
                Some(cursor) => after = cursor,
                None => break,
            }
        }
        assert_eq!(seen, 100);
    }
}

#[test]
fn first_page_is_best_first_with_id_tie_break() {
    let docs = vec![
        SearchMarker { score: 5, id: 9 },
        SearchMarker { score: 7, id: 4 },
        SearchMarker { score: 5, id: 2 },
        SearchMarker { score: 7, id: 1 },
        SearchMarker { score: 1, id: 3 },
    ];
    let (total, ids, next) = index().search(&docs, 3, After::start());
    assert_eq!(total, 5);
    assert_eq!(ids, vec![1, 4, 2]);
    assert_eq!(next.unwrap(), After::new(5, 2));

    let (total, ids, next) = index().search(&docs, 3, After::new(5, 2));
    assert_eq!(total, 5);
    assert_eq!(ids, vec![9, 3]);
    assert!(next.is_none());

    let (total, ids, next) = index().search(&docs, 2, After::new(1, 3));
    assert_eq!(total, 5);
    assert!(ids.is_empty());
    assert!(next.is_none());

    let (total, ids, next) = index().search(&[], 2, After::start());
    assert_eq!(total, 0);
    assert!(ids.is_empty());
    assert!(next.is_none());
}

#[test]
fn collector_counts_and_keeps_the_best() {
    let mut collector = ConditionalTopCollector::with_limit(2, After::new(10, 5));
    for (score, id) in [(10, 5), (10, 6), (11, 1), (3, 2), (10, 4), (9, 9), (10, 7)] {
        collector.collect(score, id);
    }
    let result = collector.harvest();
    assert_eq!(result.total, 7);
    assert_eq!(result.visited, 4);
    assert_eq!(
        result.items,
        vec![
            SearchMarker { score: 10, id: 6 },
            SearchMarker { score: 10, id: 7 }
        ]
    );
    let (total, ids, next) = index().page(&result);
    assert_eq!(total, 7);
    assert_eq!(ids, vec![6, 7]);
    assert_eq!(next.unwrap(), After::new(10, 7));
    assert_eq!(index().addresses_to_ids(&result.items), vec![6, 7]);
}

#[test]
fn cursor_accessors() {
    let after = After::new(3, 4);
    assert_eq!(after.score(), 3);
    assert_eq!(after.recipe_id(), 4);
    assert!(!after.is_start());
    assert!(After::start().is_start());
    assert!(After::default().is_start());
    assert!(After::new(0, 0).is_start());
    assert!(!After::new(0, 1).is_start());
    assert!(!After::new(1, 0).is_start());

    let cursor = SearchCursor::new(3, 4);
    assert_eq!(cursor.score(), 3);
    assert_eq!(cursor.recipe_id(), 4);
    assert!(!cursor.is_start());
    assert!(SearchCursor::start().is_start());
    assert!(SearchCursor::default().is_start());
    assert!(!SearchCursor::new(0, 1).is_start());
}

#[test]
fn continuation_predicate() {
    let after = After::new(10, 5);
    assert!(after.admits(ScoreOrder::Greater, 0));
    assert!(after.admits(ScoreOrder::Equal, 6));
    assert!(!after.admits(ScoreOrder::Equal, 5));
    assert!(!after.admits(ScoreOrder::Equal, 4));
    assert!(!after.admits(ScoreOrder::Less, 100));
    assert!(!after.admits(ScoreOrder::Unordered, 100));
    assert!(After::start().admits(ScoreOrder::Less, 0));
    assert!(After::start().admits(ScoreOrder::Unordered, 0));

    assert!(after.admits_unsigned(9, 0));
    assert!(after.admits_unsigned(10, 6));
    assert!(!after.admits_unsigned(10, 5));
    assert!(!after.admits_unsigned(11, 6));
    assert!(After::start().admits_unsigned(u64::MAX, 0));
}

#[test]
fn query_defaults() {
    let query = SearchQuery::default();
    assert_eq!(query.limit(), 10);
    assert_eq!(query.sort_order(), Sort::Relevance);
    assert!(query.cursor().is_start());

    let query = SearchQuery {
        fulltext: Some("soup".to_owned()),
        sort: Some(Sort::Calories),
        num_items: Some(3),
        after: Some(SearchCursor::new(1, 2)),
    };
    assert_eq!(query.limit(), 3);
    assert_eq!(query.sort_order(), Sort::Calories);
    assert_eq!(query.cursor(), SearchCursor::new(1, 2));

    assert_eq!(Sort::Relevance.score_kind(), ScoreKind::Float32);
    assert_eq!(Sort::FatContent.score_kind(), ScoreKind::Float64);
    assert_eq!(Sort::CarbContent.score_kind(), ScoreKind::Float64);
    assert_eq!(Sort::ProteinContent.score_kind(), ScoreKind::Float64);
    assert_eq!(Sort::NumIngredients.score_kind(), ScoreKind::Unsigned);
    assert_eq!(Sort::InstructionsLength.score_kind(), ScoreKind::Unsigned);
    assert_eq!(Sort::TotalTime.score_kind(), ScoreKind::Unsigned);
    assert_eq!(Sort::CookTime.score_kind(), ScoreKind::Unsigned);
    assert_eq!(Sort::PrepTime.score_kind(), ScoreKind::Unsigned);
    assert_eq!(Sort::Calories.score_kind(), ScoreKind::Unsigned);
}

#[test]
fn aggregation_threshold() {
    assert!(should_aggregate(true, 100, None));
    assert!(should_aggregate(true, 100, Some(100)));
    assert!(!should_aggregate(true, 101, Some(100)));
    assert!(!should_aggregate(false, 0, None));
    assert!(!should_aggregate(false, 0, Some(10)));
    assert!(should_aggregate(true, usize::MAX, None));
}

#[test]
fn schema_fields_are_required() {
    assert_eq!(
        RecipeIndex::try_from_fields(None, None, None),
        Err(SchemaError::MissingId)
    );
    assert_eq!(
        RecipeIndex::try_from_fields(Some(0), None, None),
        Err(SchemaError::MissingFulltext)
    );
    assert_eq!(
        RecipeIndex::try_from_fields(Some(0), Some(1), None),
        Err(SchemaError::MissingFeatures)
    );
    assert_eq!(
        RecipeIndex::try_from_fields(Some(3), Some(4), Some(5)),
        Ok(RecipeIndex {
            id: 3,
            fulltext: 4,
            features_bincode: 5
        })
    );
}

#[test]
fn document_text_joins_lines() {
    let doc = index().make_document(
        7,
        "Soup",
        &vec!["water".to_owned(), "salt".to_owned()],
        &vec!["boil".to_owned()],
        vec![1, 2],
    );
    assert_eq!(doc.id, 7);
    assert_eq!(doc.fulltext, "Soup\nwater\nsalt\nboil");
    assert_eq!(doc.features, vec![1, 2]);

    let bare = index().make_document(8, "Air", &Vec::new(), &Vec::new(), Vec::new());
    assert_eq!(bare.fulltext, "Air");
}

fn collected(docs: &[SearchMarker], limit: usize, after: After) -> CollectionResult {
    let mut collector = ConditionalTopCollector::with_limit(limit, after);
    for doc in docs {
        collector.collect(doc.score, doc.id);
    }
    collector.harvest()
}

#[test]
fn segments_merge_to_the_page_of_the_whole() {
    let docs = corpus();
    for after in [After::start(), After::new(2, 50), After::new(1, 97)] {
        for limit in [1usize, 10, 40, 200] {
            let whole = collected(&docs, limit, after);
            for cuts in [vec![0, 100], vec![37], vec![10, 20, 90], vec![100]] {
                let mut segments = Vec::new();
                let mut start = 0;
                for cut in cuts.iter().chain([100usize].iter()) {
                    segments.push(collected(&docs[start..*cut], limit, after));
                    start = *cut;
                }
                let merged = CollectionResult::merge_fruits(segments, limit);
                assert_eq!(merged.total, whole.total);
                assert_eq!(merged.visited, whole.visited);
                assert_eq!(merged.items, whole.items);
                assert_eq!(index().page(&merged), index().search(&docs, limit, after));
            }
        }
    }
    let none = CollectionResult::merge_fruits(Vec::new(), 3);
    assert_eq!(none.total, 0);
    assert_eq!(none.visited, 0);
    assert!(none.items.is_empty());
}

#[test]
fn found_order_does_not_change_the_pages() {
    let docs = corpus();
    let mut reversed = docs.clone();
    reversed.reverse();
    for limit in [1usize, 7, 100] {
        for after in [After::start(), After::new(3, 5)] {
            assert_eq!(
                index().search(&docs, limit, after),
                index().search(&reversed, limit, after)
            );
        }
    }
}

#[test]
fn keep_best_inserts_in_rank_order() {
    let mut items = vec![
        SearchMarker { score: 9, id: 1 },
        SearchMarker { score: 5, id: 2 },
    ];
    keep_best(&mut items, SearchMarker { score: 5, id: 1 }, 3);
    assert_eq!(
        items,
        vec![
            SearchMarker { score: 9, id: 1 },
            SearchMarker { score: 5, id: 1 },
            SearchMarker { score: 5, id: 2 }
        ]
    );
    keep_best(&mut items, SearchMarker { score: 1, id: 0 }, 3);
    assert_eq!(items.len(), 3);
    assert_eq!(items[2], SearchMarker { score: 5, id: 2 });
    keep_best(&mut items, SearchMarker { score: 10, id: 7 }, 3);
    assert_eq!(
        items,
        vec![
            SearchMarker { score: 10, id: 7 },
            SearchMarker { score: 9, id: 1 },
            SearchMarker { score: 5, id: 1 }
        ]
    );
}
