use fasta_util::range_spec::{parse_range, InvalidRangeError, RangeSpec};

#[test]
fn full_range() {
    assert_eq!(
        parse_range(b".."),
        Ok(RangeSpec { start: None, end_inclusive: None })
    );
}

#[test]
fn half_open_range() {
    assert_eq!(
        parse_range(b"2..10"),
        Ok(RangeSpec { start: Some(2), end_inclusive: Some(9) })
    );
}

#[test]
fn closed_range() {
    assert_eq!(
        parse_range(b"2..=10"),
        Ok(RangeSpec { start: Some(2), end_inclusive: Some(10) })
    );
}

#[test]
fn from_only_range() {
    assert_eq!(
        parse_range(b"2.."),
        Ok(RangeSpec { start: Some(2), end_inclusive: None })
    );
}

#[test]
fn to_only_range() {
    assert_eq!(
        parse_range(b"..10"),
        Ok(RangeSpec { start: None, end_inclusive: Some(9) })
    );
}

#[test]
fn to_only_inclusive_range() {
    assert_eq!(
        parse_range(b"..=10"),
        Ok(RangeSpec { start: None, end_inclusive: Some(10) })
    );
}

#[test]
fn end_before_start_is_rejected() {
    assert_eq!(parse_range(b"5..=2"), Err(InvalidRangeError::EndBeforeStart));
    assert_eq!(parse_range(b"5..2"), Err(InvalidRangeError::EndBeforeStart));
}

#[test]
fn empty_exclusive_end_is_rejected() {
    assert_eq!(parse_range(b"..0"), Err(InvalidRangeError::EndBeforeStart));
}

#[test]
fn malformed_ranges_are_rejected() {
    assert_eq!(parse_range(b""), Err(InvalidRangeError::Malformed));
    assert_eq!(parse_range(b"abc"), Err(InvalidRangeError::Malformed));
    assert_eq!(parse_range(b"1"), Err(InvalidRangeError::Malformed));
    assert_eq!(parse_range(b"a..b"), Err(InvalidRangeError::Malformed));
    assert_eq!(parse_range(b"1...5"), Err(InvalidRangeError::Malformed));
    assert_eq!(parse_range(b"2..="), Err(InvalidRangeError::Malformed));
    assert_eq!(parse_range(b"+2..5"), Err(InvalidRangeError::Malformed));
}

#[test]
fn oversized_bound_is_rejected() {
    assert_eq!(
        parse_range(b"99999999999999999999.."),
        Err(InvalidRangeError::Malformed)
    );
    assert_eq!(
        parse_range(b"..=18446744073709551615"),
        Ok(RangeSpec { start: None, end_inclusive: Some(u64::MAX) })
    );
}

#[test]
fn boundary_equal_range_is_accepted() {
    assert_eq!(
        parse_range(b"5..=5"),
        Ok(RangeSpec { start: Some(5), end_inclusive: Some(5) })
    );
    assert_eq!(
        parse_range(b"5..6"),
        Ok(RangeSpec { start: Some(5), end_inclusive: Some(5) })
    );
}
