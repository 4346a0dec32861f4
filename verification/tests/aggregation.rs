use cantine::error::MergeError;
use cantine::feature::collector::{
    is_request_even, merge_feature_ranges, merge_ranges, AggregationRequest, FeatureCollector,
    FeatureRanges,
};
use cantine::feature::vector::FeatureVector;

const A: usize = 0;
const B: usize = 1;
const C: usize = 2;
const D: usize = 3;

fn doc(values: &[(usize, u16)]) -> Vec<u8> {
    let mut fv = FeatureVector::<u16>::parse(vec![u8::MAX; 8], 4, Some(u16::MAX)).unwrap();
    for (i, v) in values {
        fv.set(*i, *v).unwrap();
    }
    fv.as_bytes().to_vec()
}

fn wanted() -> AggregationRequest<u16> {
    vec![
        (A, vec![2..=10, 0..=5]),
        (B, vec![9..=100, 420..=710]),
        (C, vec![2..=2]),
        (D, vec![]),
    ]
}

#[test]
fn cannot_merge_uneven_rangevec() {
    assert!(merge_ranges(&mut vec![0u16], &[1, 2]).is_err());
}

#[test]
fn cannot_merge_unever_feature_ranges() {
    assert!(merge_feature_ranges::<u16>(&mut vec![None], &[None, None]).is_err());
}

#[test]
fn range_vec_merge() {
    let mut ra = vec![0u16, 0];
    merge_ranges(&mut ra, &[0, 0]).unwrap();
    assert_eq!(0, ra[0]);
    assert_eq!(0, ra[1]);

    merge_ranges(&mut ra, &[3, 0]).unwrap();
    assert_eq!(3, ra[0]);
    assert_eq!(0, ra[1]);

    merge_ranges(&mut ra, &[417, 710]).unwrap();
    assert_eq!(420, ra[0]);
    assert_eq!(710, ra[1]);
}

#[test]
fn feature_ranges_merge() {
    let mut a: FeatureRanges<u16> = vec![None, None];

    merge_feature_ranges(&mut a, &[None, None]).unwrap();
    assert_eq!(None, a[0]);
    assert_eq!(None, a[1]);

    {
        let src = vec![Some(vec![1]), Some(vec![2, 3])];
        merge_feature_ranges(&mut a, &src).unwrap();

        assert_eq!(Some(vec![1]), a[0]);
        assert_eq!(Some(vec![2, 3]), a[1]);
    }

    {
        let src = vec![Some(vec![41]), Some(vec![0, 4])];
        merge_feature_ranges(&mut a, &src).unwrap();

        assert_eq!(Some(vec![42]), a[0]);
        assert_eq!(Some(vec![2, 7]), a[1]);
    }
}

#[test]
fn usage() {
    let num_features = 4;
    let unset = Some(u16::MAX);
    let wanted = wanted();
    assert!(is_request_even(&wanted));

    let collector = FeatureCollector::for_field(num_features, unset, &wanted);
    assert!(!collector.requires_scoring());

    let mut segment = collector.for_segment();
    segment.collect(&doc(&[(A, 5), (B, 10)]));
    segment.collect(&doc(&[(A, 7), (C, 2)]));

    let feature_ranges = collector.merge_fruits(vec![segment.harvest()]).unwrap();

    assert_eq!(Some(vec![2u16, 1]), feature_ranges[A]);
    assert_eq!(Some(vec![1, 0]), feature_ranges[B]);
    assert_eq!(Some(vec![1]), feature_ranges[C]);
    assert_eq!(None, feature_ranges[D]);
}

#[test]
fn segments_sum_to_the_whole_corpus() {
    let wanted = wanted();
    let docs = vec![
        doc(&[(A, 5), (B, 10)]),
        doc(&[(A, 7), (C, 2)]),
        doc(&[(B, 500), (C, 2), (D, 1)]),
        doc(&[]),
        doc(&[(A, 0)]),
    ];
    let collector = FeatureCollector::for_field(4, Some(u16::MAX), &wanted);

    let mut whole = collector.for_segment();
    for d in &docs {
        whole.collect(d);
    }
    let whole = collector.merge_fruits(vec![whole.harvest()]).unwrap();

    for split in 0..=docs.len() {
        let mut first = collector.for_segment();
        let mut second = collector.for_segment();
        for d in &docs[..split] {
            first.collect(d);
        }
        for d in &docs[split..] {
            second.collect(d);
        }
        let merged = collector
            .merge_fruits(vec![first.harvest(), second.harvest()])
            .unwrap();
        assert_eq!(whole, merged);
    }
    assert_eq!(Some(vec![2u16, 2]), whole[A]);
    assert_eq!(Some(vec![1, 1]), whole[B]);
    assert_eq!(Some(vec![2]), whole[C]);
    assert_eq!(None, whole[D]);
}

#[test]
fn absent_features_never_count() {
    let wanted: AggregationRequest<u16> = vec![
        (A, vec![0..=u16::MAX]),
        (B, vec![0..=u16::MAX]),
        (C, vec![0..=u16::MAX]),
        (D, vec![0..=u16::MAX]),
    ];
    let collector = FeatureCollector::for_field(4, Some(u16::MAX), &wanted);
    let mut segment = collector.for_segment();
    segment.collect(&[u8::MAX; 8]);
    segment.collect(&[u8::MAX; 8]);
    let result = segment.harvest();
    assert_eq!(result, vec![None, None, None, None]);
}

#[test]
fn feature_past_the_last_slot_is_skipped() {
    let wanted: AggregationRequest<u16> = vec![(4, vec![0..=10]), (9, vec![0..=10]), (A, vec![5..=5])];
    let collector = FeatureCollector::for_field(4, Some(u16::MAX), &wanted);
    let mut segment = collector.for_segment();
    segment.collect(&doc(&[(A, 5), (D, 3)]));
    assert_eq!(segment.harvest(), vec![Some(vec![1u16]), None, None, None]);
}

#[test]
fn repeated_feature_counts_in_one_slot() {
    let wanted: AggregationRequest<u16> = vec![(A, vec![0..=9, 5..=5]), (A, vec![5..=6, 7..=8])];
    assert!(is_request_even(&wanted));
    let collector = FeatureCollector::for_field(2, Some(u16::MAX), &wanted);
    let mut segment = collector.for_segment();
    let mut fv = FeatureVector::<u16>::parse(vec![u8::MAX; 4], 2, Some(u16::MAX)).unwrap();
    fv.set(0, 5).unwrap();
    segment.collect(fv.as_bytes());
    assert_eq!(segment.harvest(), vec![Some(vec![2u16, 1]), None]);

    let uneven: AggregationRequest<u16> = vec![(A, vec![0..=9]), (B, vec![]), (A, vec![5..=6, 7..=8])];
    assert!(!is_request_even(&uneven));
}

#[test]
fn merge_reports_which_side_is_uneven() {
    let mut outer: FeatureRanges<u16> = vec![None];
    assert_eq!(
        merge_feature_ranges(&mut outer, &[None, None]),
        Err(MergeError::UnevenFeatureRanges)
    );
    assert_eq!(outer, vec![None]);

    let mut inner: FeatureRanges<u16> = vec![Some(vec![1]), Some(vec![1]), Some(vec![5])];
    let src = vec![Some(vec![2]), Some(vec![1, 2]), Some(vec![5])];
    assert_eq!(
        merge_feature_ranges(&mut inner, &src),
        Err(MergeError::UnevenRangeVecs)
    );
    assert_eq!(inner, vec![Some(vec![3]), Some(vec![1]), Some(vec![5])]);

    let mut row = vec![7u16, 8];
    assert_eq!(merge_ranges(&mut row, &[1]), Err(MergeError::UnevenRangeVecs));
    assert_eq!(row, vec![7, 8]);
}

#[test]
fn signed_features_aggregate() {
    let wanted: AggregationRequest<i32> = vec![(0, vec![-10..=-1, 0..=10]), (1, vec![-5..=5])];
    let collector = FeatureCollector::for_field(2, Some(i32::MIN), &wanted);
    let mut segment = collector.for_segment();
    let mut fv = FeatureVector::<i32>::parse(vec![0u8; 8], 2, Some(i32::MIN)).unwrap();
    fv.set(0, -3).unwrap();
    fv.set(1, 6).unwrap();
    segment.collect(fv.as_bytes());
    fv.set(0, 10).unwrap();
    fv.set(1, -5).unwrap();
    segment.collect(fv.as_bytes());
    assert_eq!(segment.harvest(), vec![Some(vec![1, 1]), Some(vec![1])]);
}
