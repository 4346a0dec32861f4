use cantine::feature::vector::{FeatureError, FeatureVector};

#[test]
fn parse_accepts_exact_length_only() {
    assert!(FeatureVector::<u16>::parse(vec![0u8; 8], 4, None).is_ok());
    assert_eq!(
        FeatureVector::<u16>::parse(vec![0u8; 7], 4, None).err(),
        Some(FeatureError::LengthMismatch)
    );
    assert_eq!(
        FeatureVector::<u16>::parse(vec![0u8; 9], 4, None).err(),
        Some(FeatureError::LengthMismatch)
    );
    assert_eq!(
        FeatureVector::<u32>::parse(vec![0u8; 8], 4, None).err(),
        Some(FeatureError::LengthMismatch)
    );
    assert!(FeatureVector::<u64>::parse(Vec::new(), 0, None).is_ok());
}

#[test]
fn all_unset_vector_reads_none_everywhere() {
    let fv = FeatureVector::<u16>::parse(vec![u8::MAX; 8], 4, Some(u16::MAX)).unwrap();
    assert_eq!(fv.num_features(), 4);
    for i in 0..4 {
        assert_eq!(fv.get(i), None);
    }
    assert_eq!(fv.get(4), None);
}

#[test]
fn set_then_get_returns_the_value() {
    let mut fv = FeatureVector::<u16>::parse(vec![u8::MAX; 8], 4, Some(u16::MAX)).unwrap();
    assert_eq!(fv.set(1, 10), Ok(()));
    assert_eq!(fv.get(1), Some(10));
    assert_eq!(fv.get(0), None);
    assert_eq!(fv.get(2), None);
    assert_eq!(fv.get(3), None);
    assert_eq!(fv.set(3, 0x1234), Ok(()));
    assert_eq!(fv.get(3), Some(0x1234));
    assert_eq!(fv.get(1), Some(10));
}

#[test]
fn set_stores_little_endian_bytes() {
    let mut fv = FeatureVector::<u16>::parse(vec![u8::MAX; 8], 4, Some(u16::MAX)).unwrap();
    fv.set(1, 0x0102).unwrap();
    assert_eq!(fv.as_bytes(), &[0xFF, 0xFF, 0x02, 0x01, 0xFF, 0xFF, 0xFF, 0xFF]);

    let mut wide = FeatureVector::<u32>::parse(vec![0u8; 8], 2, None).unwrap();
    wide.set(1, 0x0A0B0C0D).unwrap();
    assert_eq!(wide.as_bytes(), &[0, 0, 0, 0, 0x0D, 0x0C, 0x0B, 0x0A]);
    assert_eq!(wide.get(0), Some(0));
    assert_eq!(wide.get(1), Some(0x0A0B0C0D));
}

#[test]
fn set_refuses_the_unset_value() {
    let mut fv = FeatureVector::<u16>::parse(vec![0u8; 8], 4, Some(u16::MAX)).unwrap();
    assert_eq!(fv.set(0, u16::MAX), Err(FeatureError::UnsetValue));
    assert_eq!(fv.as_bytes(), &[0u8; 8]);
    assert_eq!(fv.get(0), Some(0));
}

#[test]
fn set_refuses_a_position_past_the_end() {
    let mut fv = FeatureVector::<u16>::parse(vec![0u8; 8], 4, Some(u16::MAX)).unwrap();
    assert_eq!(fv.set(4, 1), Err(FeatureError::OutOfBounds));
    assert_eq!(fv.set(4, u16::MAX), Err(FeatureError::OutOfBounds));
    assert_eq!(fv.as_bytes(), &[0u8; 8]);
}

#[test]
fn without_marker_every_slot_is_present() {
    let fv = FeatureVector::<u16>::parse(vec![u8::MAX; 4], 2, None).unwrap();
    assert_eq!(fv.get(0), Some(u16::MAX));
    assert_eq!(fv.get(1), Some(u16::MAX));
}

#[test]
fn signed_values_round_trip() {
    let mut fv = FeatureVector::<i16>::parse(vec![0u8; 6], 3, Some(i16::MIN)).unwrap();
    fv.set(0, -1).unwrap();
    fv.set(1, i16::MAX).unwrap();
    fv.set(2, -300).unwrap();
    assert_eq!(fv.get(0), Some(-1));
    assert_eq!(fv.get(1), Some(i16::MAX));
    assert_eq!(fv.get(2), Some(-300));
    assert_eq!(fv.as_bytes(), &[0xFF, 0xFF, 0xFF, 0x7F, 0xD4, 0xFE]);
    assert_eq!(fv.set(1, i16::MIN), Err(FeatureError::UnsetValue));

    let mut wide = FeatureVector::<i64>::parse(vec![0u8; 16], 2, None).unwrap();
    wide.set(0, i64::MIN).unwrap();
    wide.set(1, -2).unwrap();
    assert_eq!(wide.get(0), Some(i64::MIN));
    assert_eq!(wide.get(1), Some(-2));

    let mut mid = FeatureVector::<i32>::parse(vec![0u8; 8], 2, None).unwrap();
    mid.set(0, -70000).unwrap();
    mid.set(1, i32::MAX).unwrap();
    assert_eq!(mid.get(0), Some(-70000));
    assert_eq!(mid.get(1), Some(i32::MAX));
}

#[test]
fn unsigned_64_bit_values_round_trip() {
    let mut fv = FeatureVector::<u64>::parse(vec![0u8; 16], 2, Some(u64::MAX)).unwrap();
    fv.set(0, u64::MAX - 1).unwrap();
    fv.set(1, 1).unwrap();
    assert_eq!(fv.get(0), Some(u64::MAX - 1));
    assert_eq!(fv.get(1), Some(1));
    assert_eq!(&fv.as_bytes()[8..], &[1, 0, 0, 0, 0, 0, 0, 0]);
}
