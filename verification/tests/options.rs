use cantine::error::{Corruption, MergeError, StoreError};
use cantine::feature::collector::{
    copy_request, copy_row, empty_ranges, ranges_fit, rows_fit, zero_row, AggregationRequest,
    FeatureCollector, FeatureRanges,
};
use cantine::feature::vector::FeatureVector;
use cantine::index::SchemaError;
use cantine::options::{does_not_exist, LoadOptions, QueryOptions};

#[test]
fn output_directory_must_not_exist() {
    assert_eq!(does_not_exist(false), Ok(()));
    assert_eq!(does_not_exist(true), Err("Path already exists".to_owned()));
}

#[test]
fn load_options_are_not_zero() {
    assert!(LoadOptions::new(0, 1, 1, "out".to_owned()).is_none());
    assert!(LoadOptions::new(1, 0, 1, "out".to_owned()).is_none());
    assert!(LoadOptions::new(1, 1, 0, "out".to_owned()).is_none());
    let options = LoadOptions::new(2, 3, 4, "out".to_owned()).unwrap();
    assert_eq!(options.buffer_size, 2);
    assert_eq!(options.commit_every, 3);
    assert_eq!(options.num_producers, 4);
    assert_eq!(options.output_dir, "out");
    assert_eq!(options.buffer_bytes(), Some(2_000_000));

    let defaults = LoadOptions::with_defaults("dir".to_owned());
    assert_eq!(defaults.buffer_size, 1000);
    assert_eq!(defaults.commit_every, 300000);
    assert_eq!(defaults.num_producers, 4);
    assert_eq!(defaults.buffer_bytes(), Some(1_000_000_000));

    let huge = LoadOptions::new(usize::MAX, 1, 1, "out".to_owned()).unwrap();
    assert_eq!(huge.buffer_bytes(), None);
}

#[test]
fn commits_come_every_nth_recipe() {
    let options = LoadOptions::new(1, 3, 1, "out".to_owned()).unwrap();
    let due: Vec<bool> = (1..=7).map(|n| options.commit_due(n)).collect();
    assert_eq!(due, vec![false, false, true, false, false, true, false]);
}

#[test]
fn query_options_decide_on_aggregation() {
    let capped = QueryOptions {
        base_path: "data".to_owned(),
        agg_threshold: Some(5),
    };
    assert!(capped.aggregates(true, 5));
    assert!(!capped.aggregates(true, 6));
    assert!(!capped.aggregates(false, 1));
    let open = QueryOptions {
        base_path: "data".to_owned(),
        agg_threshold: None,
    };
    assert!(open.aggregates(true, usize::MAX));
    assert!(!open.aggregates(false, 0));
}

#[test]
fn errors_have_messages() {
    assert_eq!(
        MergeError::UnevenFeatureRanges.message(),
        "Tried to merge uneven feature ranges"
    );
    assert_eq!(
        MergeError::UnevenRangeVecs.message(),
        "Tried to merge uneven range vecs"
    );
    assert_eq!(
        StoreError::AlreadyExists.message(),
        "database files already exist"
    );
    assert_eq!(StoreError::Full.message(), "data file is full");
    assert_eq!(
        StoreError::Corrupt(Corruption::LogSize).message(),
        "Expected file to size to be a multiple of 32"
    );
    assert_eq!(
        StoreError::Corrupt(Corruption::UnreachableOffset).message(),
        "index points at unreachable offset"
    );
    assert_eq!(
        StoreError::Corrupt(Corruption::MissingHeader).message(),
        "data file has no header"
    );
    assert_eq!(
        StoreError::Corrupt(Corruption::AppendOffsetTooSmall).message(),
        "Got weird append offset from data file"
    );
    assert_eq!(
        StoreError::Corrupt(Corruption::AppendOffsetTooLarge).message(),
        "append offset is past the end of the data file"
    );
    assert_eq!(SchemaError::MissingId.message(), "Missing field id");
    assert_eq!(
        SchemaError::MissingFulltext.message(),
        "Missing field fulltext"
    );
    assert_eq!(
        SchemaError::MissingFeatures.message(),
        "Missing field features_bincode"
    );
}

#[test]
fn unset_vector_is_empty_everywhere() {
    let fv = FeatureVector::<u16>::unset(3, u16::MAX);
    assert_eq!(fv.as_bytes(), &[0xFF; 6]);
    for i in 0..3 {
        assert_eq!(fv.get(i), None);
    }
    let mut other = FeatureVector::<u32>::unset(2, 7);
    assert_eq!(other.as_bytes(), &[7, 0, 0, 0, 7, 0, 0, 0]);
    assert_eq!(other.get(0), None);
    other.set(1, 8).unwrap();
    assert_eq!(other.get(0), None);
    assert_eq!(other.get(1), Some(8));
    let signed = FeatureVector::<i16>::unset(1, -2);
    assert_eq!(signed.as_bytes(), &[0xFE, 0xFF]);
    assert_eq!(FeatureVector::<u64>::unset(0, 1).as_bytes().len(), 0);
}

#[test]
fn sums_are_checked_before_merging() {
    assert!(rows_fit(&[1u16, 2], &[3, 4]));
    assert!(rows_fit(&[u16::MAX - 1], &[1]));
    assert!(!rows_fit(&[u16::MAX], &[1]));
    assert!(rows_fit(&[u16::MAX], &[1, 2]));
    assert!(!rows_fit(&[-30000i16], &[-30000]));
    assert!(rows_fit(&[-30000i16], &[30000]));

    let dest: FeatureRanges<u16> = vec![Some(vec![u16::MAX]), None, Some(vec![1, 2])];
    assert!(ranges_fit(&dest, &[None, Some(vec![9]), Some(vec![1, 2])]));
    assert!(!ranges_fit(&dest, &[Some(vec![1]), None, None]));
    assert!(ranges_fit(&dest, &[Some(vec![1, 1]), None, None]));
    assert!(ranges_fit(&dest, &[Some(vec![1])]));
}

#[test]
fn headroom_is_checked_before_collecting() {
    let wanted: AggregationRequest<u16> = vec![(0, vec![0..=10]), (0, vec![5..=5])];
    let collector = FeatureCollector::for_field(1, Some(u16::MAX), &wanted);
    let mut segment = collector.for_segment();
    assert!(segment.has_headroom());
    let mut fv = FeatureVector::<u16>::unset(1, u16::MAX);
    fv.set(0, 5).unwrap();
    segment.collect(fv.as_bytes());
    assert!(segment.has_headroom());
    assert_eq!(segment.harvest(), vec![Some(vec![2u16])]);
}

#[test]
fn checked_collect_refuses_what_collect_cannot_take() {
    let wanted: AggregationRequest<u16> = vec![(0, vec![0..=10])];
    let collector = FeatureCollector::for_field(2, Some(u16::MAX), &wanted);
    let mut segment = collector.for_segment();
    assert!(!segment.checked_collect(&[1, 0, 2]));
    assert!(!segment.checked_collect(&[1, 0]));
    assert!(!segment.checked_collect(&[1, 0, 2, 0, 3, 0]));
    assert!(segment.checked_collect(&[1, 0, 2, 0]));
    assert!(segment.checked_collect(&[0xFF, 0xFF, 2, 0]));
    assert_eq!(segment.harvest(), vec![Some(vec![1u16]), None]);
}

#[test]
fn checked_merge_refuses_sums_that_overflow() {
    let wanted: AggregationRequest<u16> = vec![(0, vec![0..=10])];
    let collector = FeatureCollector::for_field(1, Some(u16::MAX), &wanted);
    assert_eq!(
        collector.checked_merge_fruits(vec![vec![Some(vec![u16::MAX])], vec![Some(vec![1])]]),
        None
    );
    assert_eq!(
        collector.checked_merge_fruits(vec![vec![Some(vec![u16::MAX - 1])], vec![Some(vec![1])]]),
        Some(Ok(vec![Some(vec![u16::MAX])]))
    );
    assert_eq!(
        collector.checked_merge_fruits(vec![vec![Some(vec![1])], vec![Some(vec![1, 2])]]),
        Some(Err(MergeError::UnevenRangeVecs))
    );
    assert_eq!(
        collector.checked_merge_fruits(vec![vec![None, None]]),
        Some(Err(MergeError::UnevenFeatureRanges))
    );
    assert_eq!(collector.checked_merge_fruits(Vec::new()), Some(Ok(vec![None])));
    assert_eq!(
        collector.merge_fruits(vec![vec![Some(vec![2])], vec![None], vec![Some(vec![3])]]),
        Ok(vec![Some(vec![5])])
    );
}

#[test]
fn helpers_copy_what_they_are_given() {
    assert_eq!(copy_row(&[1u32, 2, 3]), vec![1, 2, 3]);
    assert_eq!(zero_row::<i64>(3), vec![0, 0, 0]);
    assert_eq!(empty_ranges::<u16>(2), vec![None, None]);
    let wanted: AggregationRequest<u16> = vec![(3, vec![1..=2, 5..=9]), (0, vec![])];
    assert_eq!(copy_request(&wanted), wanted);
}
