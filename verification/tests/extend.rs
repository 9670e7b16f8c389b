use coverage_profile::error::ProfileError;
use coverage_profile::interval::{extend, GenomicInterval, ReferencePoint, Strand};

fn region(start: u64, end: u64, strand: Strand) -> GenomicInterval {
    GenomicInterval::new("chr1".to_string(), start, end, strand).unwrap()
}

#[test]
fn interval_keeps_what_it_was_made_from() {
    let interval = GenomicInterval::new("chrX".to_string(), 5, 9, Strand::Reverse).unwrap();
    assert_eq!(interval.chrom(), "chrX");
    assert_eq!(interval.start(), 5);
    assert_eq!(interval.end(), 9);
    assert_eq!(interval.strand(), Strand::Reverse);
}

#[test]
fn interval_may_be_empty_but_not_inverted() {
    assert!(GenomicInterval::new("chr1".to_string(), 7, 7, Strand::Unknown).is_some());
    assert!(GenomicInterval::new("chr1".to_string(), 8, 7, Strand::Unknown).is_none());
    assert!(GenomicInterval::new("chr1".to_string(), u64::MAX, 0, Strand::Forward).is_none());
}

#[test]
fn center_window_is_upstream_plus_downstream_long() {
    let window = extend(&region(1000, 1100, Strand::Forward), ReferencePoint::Center, 50, 50).unwrap();
    assert_eq!(window.start(), 1000);
    assert_eq!(window.end(), 1100);
    assert_eq!(window.end() - window.start(), 100);
    assert_eq!(window.chrom(), "chr1");
    assert_eq!(window.strand(), Strand::Forward);
}

#[test]
fn center_anchor_rounds_down() {
    // anchor = 100 + (103 - 100) / 2 = 101
    let window = extend(&region(100, 103, Strand::Reverse), ReferencePoint::Center, 10, 20).unwrap();
    assert_eq!(window.start(), 91);
    assert_eq!(window.end(), 121);
    assert_eq!(window.end() - window.start(), 30);
    assert_eq!(window.strand(), Strand::Reverse);
}

#[test]
fn start_and_end_anchor_at_the_region_bounds() {
    let at_start = extend(&region(500, 900, Strand::Unknown), ReferencePoint::Start, 100, 30).unwrap();
    assert_eq!((at_start.start(), at_start.end()), (400, 530));
    let at_end = extend(&region(500, 900, Strand::Unknown), ReferencePoint::End, 100, 30).unwrap();
    assert_eq!((at_end.start(), at_end.end()), (800, 930));
}

#[test]
fn window_of_no_length_is_allowed() {
    let window = extend(&region(10, 20, Strand::Forward), ReferencePoint::Start, 0, 0).unwrap();
    assert_eq!((window.start(), window.end()), (10, 10));
}

#[test]
fn window_before_coordinate_zero_is_an_underflow() {
    let r = region(10, 20, Strand::Forward);
    assert_eq!(extend(&r, ReferencePoint::Start, 11, 0).unwrap_err(), ProfileError::ArithmeticUnderflow);
    assert_eq!(extend(&r, ReferencePoint::Center, 16, 0).unwrap_err(), ProfileError::ArithmeticUnderflow);
    assert_eq!(extend(&r, ReferencePoint::End, 21, 0).unwrap_err(), ProfileError::ArithmeticUnderflow);
    let at_zero = extend(&r, ReferencePoint::Start, 10, 5).unwrap();
    assert_eq!((at_zero.start(), at_zero.end()), (0, 15));
}

#[test]
fn window_past_the_last_coordinate_is_an_overflow() {
    let r = region(u64::MAX - 10, u64::MAX, Strand::Forward);
    assert_eq!(extend(&r, ReferencePoint::End, 5, 1).unwrap_err(), ProfileError::CoordinateOverflow);
    let fits = extend(&r, ReferencePoint::End, 5, 0).unwrap();
    assert_eq!((fits.start(), fits.end()), (u64::MAX - 5, u64::MAX));
    let fits = extend(&r, ReferencePoint::Start, 0, 10).unwrap();
    assert_eq!((fits.start(), fits.end()), (u64::MAX - 10, u64::MAX));
}

#[test]
fn underflow_is_reported_before_overflow() {
    let r = region(u64::MAX - 1, u64::MAX, Strand::Forward);
    assert_eq!(extend(&r, ReferencePoint::Start, u64::MAX, 5).unwrap_err(), ProfileError::ArithmeticUnderflow);
}

#[test]
fn reference_point_is_read_from_its_name() {
    assert_eq!(ReferencePoint::from_name("center"), Ok(ReferencePoint::Center));
    assert_eq!(ReferencePoint::from_name("start"), Ok(ReferencePoint::Start));
    assert_eq!(ReferencePoint::from_name("end"), Ok(ReferencePoint::End));
}

#[test]
fn unknown_reference_point_is_refused() {
    for name in ["", "Center", "centre", "START", "end ", "tss", "middle"] {
        assert_eq!(ReferencePoint::from_name(name), Err(ProfileError::InvalidReferencePoint));
    }
}

#[test]
fn reference_point_name_reads_back() {
    for mode in [ReferencePoint::Center, ReferencePoint::Start, ReferencePoint::End] {
        assert_eq!(ReferencePoint::from_name(mode.name().as_str()), Ok(mode));
    }
}

#[test]
fn every_error_has_its_own_message() {
    let all = [
        ProfileError::ParseError,
        ProfileError::InvalidReferencePoint,
        ProfileError::ArithmeticUnderflow,
        ProfileError::CoordinateOverflow,
        ProfileError::DivisionByZero,
        ProfileError::UnsupportedReadCount,
    ];
    for (i, a) in all.iter().enumerate() {
        assert!(!a.message().is_empty());
        for b in all.iter().skip(i + 1) {
            assert_ne!(a.message(), b.message());
        }
    }
    assert_eq!(ProfileError::UnsupportedReadCount.message(), "only 2 reads are supported in relative mode");
}
