use byst::range::RangeOutOfBounds;
use byst::Range;

#[test]
fn unbounded_range() {
    let r = Range::from(..);

    assert_eq!(r.start, None);
    assert_eq!(r.end, None);
    assert_eq!(r.indices_unchecked_in(12, 34), (12, 34));
    assert_eq!(r.indices_checked_in(12, 34).unwrap(), (12, 34));
    assert_eq!(r.len_in(12, 34), 34 - 12);
}

#[test]
fn range_with_upper_bound() {
    let r = Range::from(..4);

    assert_eq!(r.start, None);
    assert_eq!(r.end, Some(4));
    assert_eq!(r.indices_unchecked_in(12, 34), (12, 16));
    assert_eq!(r.indices_checked_in(12, 34).unwrap(), (12, 16));
    assert_eq!(r.len_in(12, 34), 4);
}

#[test]
fn range_conversions() {
    assert_eq!(Range::from(2..5), Range { start: Some(2), end: Some(5) });
    assert_eq!(Range::from(2..=5), Range { start: Some(2), end: Some(6) });
    assert_eq!(Range::from(2..), Range { start: Some(2), end: None });
    assert_eq!(Range::from(..=5), Range { start: None, end: Some(6) });
    assert_eq!(Range::from(7usize), Range { start: Some(7), end: Some(8) });
    assert_eq!(Range::from((3, 9)), Range { start: Some(3), end: Some(9) });
}

#[test]
fn range_builders() {
    let r = Range::default().with_start(3).with_length(4);
    assert_eq!(r, Range { start: Some(3), end: Some(7) });
    assert_eq!(r.with_end(10), Range { start: Some(3), end: Some(10) });
}

#[test]
fn range_checked_out_of_bounds() {
    let r = Range::from(2..40);
    assert_eq!(
        r.indices_checked_in(10, 20).unwrap_err(),
        RangeOutOfBounds { required: r, bounds: (10, 20) }
    );
    let r = Range::from(5..3);
    assert!(r.indices_checked_in(0, 10).is_err());
    assert_eq!(r.indices_unchecked_in(0, 10), (5, 5));
    assert_eq!(r.len_in(0, 10), 0);
}

#[test]
fn range_containment() {
    let outer = Range::from(2..10);
    assert!(outer.contains(3..5));
    assert!(outer.contains(outer));
    assert!(!outer.contains(1..5));
    assert!(!outer.contains(3..11));
    assert!(Range::from(3..5).contained_by(2..10));
    assert!(Range::from(..).contains(1..100));
    assert!(outer.contains_index(10));
    assert!(!outer.contains_index(11));
    assert!(!outer.contains_index(1));
}

#[test]
fn range_slice_get() {
    let data = [1u8, 2, 3, 4, 5];
    assert_eq!(Range::from(1..3).slice_get(&data).unwrap(), &[2, 3]);
    assert_eq!(Range::from(..).slice_get(&data).unwrap(), &data);
    assert_eq!(
        Range::from(4..6).slice_get(&data).unwrap_err(),
        RangeOutOfBounds { required: Range::from(4..6), bounds: (0, 5) }
    );
}

#[test]
fn contained_by_converts_the_other_range() {
    assert!(Range::from(2..5).contained_by(0..10));
    assert!(!Range::from(0..8).contained_by(0..4));
    assert!(Range::from(2..5).contained_by(..10));
    assert!(Range::from(2..5).contained_by(2..));
    assert!(!Range::from(2..5).contained_by(3..));
    assert!(Range::from(2..5).contained_by(..));
    assert!(Range::from(2..5).contained_by(..=5));
    assert!(Range::from(2..5).contained_by(Range::from(2..5)));
}

#[test]
fn an_exhausted_inclusive_range_excludes_its_end() {
    assert_eq!(Range::from(2..=4), Range::from(2..5));
    let mut r = 4..=4;
    assert_eq!(r.next(), Some(4));
    assert_eq!(Range::from(r), Range::from(4..4));
}
