use kelpie::{DataPoint, RawSeries};

fn point(time: i64, value: f64) -> DataPoint {
    DataPoint {
        time,
        value: value.to_bits(),
    }
}

fn series_of(points: &[(i64, f64)]) -> RawSeries {
    let mut series = RawSeries::new();
    for &(time, value) in points {
        series.insert(point(time, value));
    }
    series
}

#[test]
fn new_series_is_empty() {
    let series = RawSeries::new();
    assert_eq!(series.len(), 0);
    assert_eq!(series.first_time(), None);
    assert_eq!(series.last_time(), None);
    assert_eq!(series.to_vec(), vec![]);
    assert!(series == RawSeries::default());
}

#[test]
fn insert_keeps_points_by_ascending_time() {
    let series = series_of(&[(30, 3.0), (10, 1.0), (20, 2.0), (-5, 0.5)]);
    assert_eq!(
        series.to_vec(),
        vec![point(-5, 0.5), point(10, 1.0), point(20, 2.0), point(30, 3.0)]
    );
    assert_eq!(series.len(), 4);
    assert_eq!(series.point(2), point(20, 2.0));
}

#[test]
fn insert_at_a_time_that_is_there_replaces_the_value() {
    let mut series = series_of(&[(10, 1.0), (20, 2.0)]);
    series.insert(point(10, 7.5));
    assert_eq!(series.to_vec(), vec![point(10, 7.5), point(20, 2.0)]);
    assert_eq!(series.get(10), Some(7.5f64.to_bits()));
    assert_eq!(series.get(20), Some(2.0f64.to_bits()));
    assert_eq!(series.get(15), None);
}

#[test]
fn values_are_told_apart_by_their_bits() {
    let mut series = RawSeries::new();
    series.insert(point(1, 0.0));
    let mut other = RawSeries::new();
    other.insert(point(1, -0.0));
    assert!(series != other);
    other.insert(point(1, 0.0));
    assert!(series == other);
}

#[test]
fn first_and_last_time_are_the_extremes() {
    let series = series_of(&[(5, 0.0), (i64::MAX, 0.0), (i64::MIN, 0.0), (0, 0.0)]);
    assert_eq!(series.first_time(), Some(i64::MIN));
    assert_eq!(series.last_time(), Some(i64::MAX));
    let one = series_of(&[(42, 1.0)]);
    assert_eq!(one.first_time(), Some(42));
    assert_eq!(one.last_time(), Some(42));
}

#[test]
fn lower_bound_finds_the_first_time_not_before() {
    let series = series_of(&[(10, 0.0), (20, 0.0), (30, 0.0)]);
    assert_eq!(series.lower_bound(5), 0);
    assert_eq!(series.lower_bound(10), 0);
    assert_eq!(series.lower_bound(11), 1);
    assert_eq!(series.lower_bound(30), 2);
    assert_eq!(series.lower_bound(31), 3);
}

#[test]
fn range_is_half_open() {
    let series = series_of(&[(10, 1.0), (20, 2.0), (30, 3.0), (40, 4.0)]);
    assert_eq!(
        series.range(20, 40).to_vec(),
        vec![point(20, 2.0), point(30, 3.0)]
    );
    assert_eq!(series.range(20, 20).to_vec(), vec![]);
    assert_eq!(series.range(40, 20).to_vec(), vec![]);
    assert_eq!(series.range(i64::MIN, i64::MAX).to_vec(), series.to_vec());
    assert_eq!(series.range(41, i64::MAX).to_vec(), vec![]);
}

#[test]
fn absorb_prefers_the_other_series() {
    let mut series = series_of(&[(10, 1.0), (20, 2.0)]);
    let other = series_of(&[(20, 9.0), (5, 0.5), (30, 3.0)]);
    series.absorb(&other);
    assert_eq!(
        series.to_vec(),
        vec![point(5, 0.5), point(10, 1.0), point(20, 9.0), point(30, 3.0)]
    );
    assert_eq!(other.len(), 3);
}

#[test]
fn clone_is_equal_and_apart() {
    let series = series_of(&[(10, 1.0), (20, 2.0)]);
    let mut copy = series.clone();
    assert!(copy == series);
    copy.insert(point(30, 3.0));
    assert!(copy != series);
    assert_eq!(series.len(), 2);
}

#[test]
fn serial_size_hint_is_sixteen_bytes_a_point() {
    assert_eq!(RawSeries::new().serial_size_hint(), 0);
    assert_eq!(series_of(&[(1, 1.0), (2, 2.0), (3, 3.0)]).serial_size_hint(), 48);
}

#[test]
fn nan_is_told_by_its_bits() {
    assert!(point(0, f64::NAN).is_nan());
    assert!(point(0, -f64::NAN).is_nan());
    assert!(DataPoint { time: 0, value: 0x7ff0_0000_0000_0001 }.is_nan());
    assert!(DataPoint { time: 0, value: 0xffff_ffff_ffff_ffff }.is_nan());
    assert!(!point(0, f64::INFINITY).is_nan());
    assert!(!point(0, f64::NEG_INFINITY).is_nan());
    assert!(!point(0, 0.0).is_nan());
    assert!(!point(0, -0.0).is_nan());
    assert!(!point(0, 1.22e-321).is_nan());
    assert!(!point(0, f64::MAX).is_nan());
}
