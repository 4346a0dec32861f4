use cantine::feature::vector::FeatureVector;
use cantine::search::collector::{AggregationRequest, FeatureCollector, FeatureRanges, RangeVec};

const A: usize = 0;
const B: usize = 1;
const C: usize = 2;
const D: usize = 3;

fn packed(values: &[(usize, u16)]) -> Vec<u8> {
    let mut fv = FeatureVector::<u16>::parse(vec![u8::MAX; 4 * 2], 4, Some(u16::MAX)).unwrap();
    for (i, v) in values {
        fv.set(*i, *v).unwrap();
    }
    fv.as_bytes().to_vec()
}

#[test]
fn cannot_merge_different_sized_range_vecs() {
    let mut ra = RangeVec::new(1);
    assert!(ra.merge(&RangeVec::new(2)).is_err());
}

#[test]
fn range_vec_basic_usage() {
    let mut ra = RangeVec::new(1);
    assert_eq!(1, ra.len());

    assert_eq!(0, ra.get(0));
    ra.inc(0);
    assert_eq!(1, ra.get(0));
    ra.inc(0);
    assert_eq!(2, ra.get(0));
}

#[test]
fn can_wrap_existing_vec() {
    let ra = RangeVec(vec![1, 0, 3]);
    assert_eq!(1, ra.get(0));
    assert_eq!(0, ra.get(1));
    assert_eq!(3, ra.get(2));
}

#[test]
fn collector_range_vec_merge() {
    let mut ra = RangeVec::new(2);

    ra.merge(&RangeVec::new(2)).unwrap();
    assert_eq!(0, ra.get(0));
    assert_eq!(0, ra.get(1));

    ra.merge(&RangeVec(vec![3, 0])).unwrap();
    assert_eq!(3, ra.get(0));
    assert_eq!(0, ra.get(1));

    ra.merge(&RangeVec(vec![417, 710])).unwrap();
    assert_eq!(420, ra.get(0));
    assert_eq!(710, ra.get(1));
}

#[test]
fn feature_ranges_init() {
    let frs = FeatureRanges::new(2);
    assert_eq!(2, frs.len());

    assert_eq!(&None, frs.get(0));
    assert_eq!(&None, frs.get(1));
}

#[test]
fn cannot_merge_different_sized_feature_ranges() {
    let mut a = FeatureRanges::new(1);
    assert!(a.merge(&FeatureRanges::new(2)).is_err());
}

#[test]
fn cannot_merge_feature_ranges_with_uneven_ranges() {
    let mut a = FeatureRanges(vec![Some(RangeVec(vec![1]))]);
    let b = FeatureRanges(vec![Some(RangeVec(vec![1, 2]))]);
    assert_eq!(a.len(), b.len());
    assert!(a.merge(&b).is_err());
}

#[test]
fn collector_feature_ranges_merge() {
    let mut a = FeatureRanges::new(2);

    a.merge(&FeatureRanges::new(2)).unwrap();
    assert_eq!(&None, a.get(0));
    assert_eq!(&None, a.get(1));

    {
        let src = FeatureRanges(vec![Some(RangeVec(vec![1])), Some(RangeVec(vec![2, 3]))]);
        a.merge(&src).unwrap();

        assert_eq!(&Some(RangeVec(vec![1])), a.get(0));
        assert_eq!(&Some(RangeVec(vec![2, 3])), a.get(1));
    }

    {
        let src = FeatureRanges(vec![Some(RangeVec(vec![41])), Some(RangeVec(vec![0, 4]))]);
        a.merge(&src).unwrap();

        assert_eq!(&Some(RangeVec(vec![42])), a.get(0));
        assert_eq!(&Some(RangeVec(vec![2, 7])), a.get(1));
    }
}

#[test]
fn collector_usage() {
    let num_features = 4;
    let wanted: AggregationRequest = vec![
        (A, vec![2..=10, 0..=5]),
        (B, vec![9..=100, 420..=710]),
        (C, vec![2..=2]),
        (D, vec![]),
    ];

    let collector = FeatureCollector::for_field(num_features, &wanted);
    let mut first = collector.for_segment();
    let mut second = collector.for_segment();
    first.collect(&packed(&[(A, 5), (B, 10)]));
    second.collect(&packed(&[(A, 7), (C, 2)]));

    let feature_ranges = collector
        .merge_fruits(vec![first.harvest(), second.harvest()])
        .unwrap();

    assert_eq!(&Some(RangeVec(vec![2, 1])), feature_ranges.get(A));
    assert_eq!(&Some(RangeVec(vec![1, 0])), feature_ranges.get(B));
    assert_eq!(&Some(RangeVec(vec![1])), feature_ranges.get(C));
    assert_eq!(&None, feature_ranges.get(D));
}

#[test]
fn get_mut_reaches_the_slot() {
    let mut frs = FeatureRanges::new(2);
    assert!(frs.get_mut(2).is_none());
    *frs.get_mut(1).unwrap() = Some(RangeVec(vec![4]));
    assert_eq!(&None, frs.get(0));
    assert_eq!(&Some(RangeVec(vec![4])), frs.get(1));
    assert_eq!(frs.get(1).as_ref().unwrap().inner(), &vec![4u16]);
}

#[test]
fn all_unset_document_counts_nothing() {
    let wanted: AggregationRequest = vec![
        (A, vec![0..=u16::MAX]),
        (B, vec![0..=u16::MAX]),
        (C, vec![0..=u16::MAX]),
        (D, vec![0..=u16::MAX]),
    ];
    let collector = FeatureCollector::for_field(4, &wanted);
    let mut segment = collector.for_segment();
    segment.collect(&[u8::MAX; 8]);
    let result = segment.harvest();
    for i in 0..4 {
        assert_eq!(&None, result.get(i));
    }
}
