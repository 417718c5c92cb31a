use exercises::perfect_numbers::{classify, Classification};
use exercises::vlq::{from_bytes, to_bytes, Error};

#[test]
fn classifies_perfect_numbers() {
    assert_eq!(classify(6), Some(Classification::Perfect));
    assert_eq!(classify(28), Some(Classification::Perfect));
    assert_eq!(classify(33550336), Some(Classification::Perfect));
}

#[test]
fn classifies_abundant_and_deficient_numbers() {
    assert_eq!(classify(12), Some(Classification::Abundant));
    assert_eq!(classify(24), Some(Classification::Abundant));
    assert_eq!(classify(8), Some(Classification::Deficient));
    assert_eq!(classify(13), Some(Classification::Deficient));
    assert_eq!(classify(1), Some(Classification::Deficient));
}

#[test]
fn zero_has_no_classification() {
    assert_eq!(classify(0), None);
}

#[test]
fn encodes_single_numbers() {
    assert_eq!(to_bytes(&[0]), vec![0x00]);
    assert_eq!(to_bytes(&[0x40]), vec![0x40]);
    assert_eq!(to_bytes(&[0x7f]), vec![0x7f]);
    assert_eq!(to_bytes(&[0x80]), vec![0x81, 0x00]);
    assert_eq!(to_bytes(&[0x2000]), vec![0xc0, 0x00]);
    assert_eq!(to_bytes(&[0x3fff]), vec![0xff, 0x7f]);
    assert_eq!(to_bytes(&[0x4000]), vec![0x81, 0x80, 0x00]);
    assert_eq!(to_bytes(&[0xffff_ffff]), vec![0x8f, 0xff, 0xff, 0xff, 0x7f]);
}

#[test]
fn encodes_many_numbers() {
    assert_eq!(to_bytes(&[0x40, 0x7f]), vec![0x40, 0x7f]);
    assert_eq!(to_bytes(&[0x4000, 0x12_3456]), vec![0x81, 0x80, 0x00, 0xc8, 0xe8, 0x56]);
    assert!(to_bytes(&[]).is_empty());
}

#[test]
fn decodes_numbers() {
    assert_eq!(from_bytes(&[0x7f]), Ok(vec![0x7f]));
    assert_eq!(from_bytes(&[0xc0, 0x00]), Ok(vec![0x2000]));
    assert_eq!(from_bytes(&[0x8f, 0xff, 0xff, 0xff, 0x7f]), Ok(vec![0xffff_ffff]));
    assert_eq!(from_bytes(&[0x81, 0x80, 0x00, 0xc8, 0xe8, 0x56]), Ok(vec![0x4000, 0x12_3456]));
}

#[test]
fn incomplete_number_is_an_error() {
    assert_eq!(from_bytes(&[0xff]), Err(Error::IncompleteNumber));
    assert_eq!(from_bytes(&[0x7f, 0x80]), Err(Error::IncompleteNumber));
}

#[test]
fn overflow_is_an_error() {
    assert_eq!(from_bytes(&[0xff, 0xff, 0xff, 0xff, 0x7f]), Err(Error::Overflow));
    assert_eq!(from_bytes(&[0x90, 0x80, 0x80, 0x80, 0x00]), Err(Error::Overflow));
    assert_eq!(from_bytes(&[0x8f, 0xff, 0xff, 0xff, 0xff, 0x7f]), Err(Error::Overflow));
}

#[test]
fn round_trip_keeps_numbers() {
    let values = [0u32, 1, 127, 128, 300, 16383, 16384, 0x0fff_ffff, 0xffff_ffff];
    assert_eq!(from_bytes(&to_bytes(&values)), Ok(values.to_vec()));
}
