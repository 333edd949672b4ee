use kelpie::{Schedule, ScheduleConfig};

#[test]
fn default_window_is_an_hour_of_milliseconds() {
    assert_eq!(ScheduleConfig::default().chunk_size(), 3_600_000);
    assert_eq!(kelpie::schedule::DEFAULT_CHUNK_SIZE, 60 * 60 * 1000);
}

#[test]
fn window_width_must_be_positive() {
    assert!(ScheduleConfig::new(0).is_none());
    assert!(ScheduleConfig::new(-1).is_none());
    assert!(ScheduleConfig::new(i64::MIN).is_none());
    assert_eq!(ScheduleConfig::new(1).unwrap().chunk_size(), 1);
    assert_eq!(ScheduleConfig::new(i64::MAX).unwrap().chunk_size(), i64::MAX);
}

#[test]
fn window_starts_at_a_multiple_of_the_width() {
    let config = ScheduleConfig::default();
    let cases: [(i64, i64, i64); 7] = [
        (0, 0, 3_600_000),
        (1, 0, 3_600_000),
        (3_599_999, 0, 3_600_000),
        (3_600_000, 3_600_000, 7_200_000),
        (3_600_001, 3_600_000, 7_200_000),
        (7_200_000, 7_200_000, 10_800_000),
        (1_722_180_250_000, 1_722_178_800_000, 1_722_182_400_000),
    ];
    for (time, start, end) in cases {
        let window = config.init_schedule_from_time(time);
        assert_eq!(window.chunk_start, start, "start of the window of {}", time);
        assert_eq!(window.chunk_end, end, "end of the window of {}", time);
        assert!(window.contains(time));
    }
}

#[test]
fn window_of_a_time_before_zero_is_rounded_toward_zero() {
    let config = ScheduleConfig::new(10).unwrap();
    let window = config.init_schedule_from_time(-1);
    assert_eq!(window, Schedule { chunk_start: 0, chunk_end: 10 });
    assert!(!window.contains(-1));
    let window = config.init_schedule_from_time(-10);
    assert_eq!(window, Schedule { chunk_start: -10, chunk_end: 0 });
    let window = config.init_schedule_from_time(-15);
    assert_eq!(window, Schedule { chunk_start: -10, chunk_end: 0 });
    let window = config.init_schedule_from_time(i64::MIN);
    assert_eq!(window.chunk_start, -9_223_372_036_854_775_800);
    assert_eq!(window.chunk_end, -9_223_372_036_854_775_790);
}

#[test]
fn window_end_stops_at_the_largest_time() {
    let config = ScheduleConfig::default();
    let window = config.init_schedule_from_time(i64::MAX);
    assert_eq!(window.chunk_start, 9_223_372_036_854_000_000);
    assert_eq!(window.chunk_end, i64::MAX);
    assert!(!window.contains(i64::MAX));
    let window = config.init_schedule_from_time(i64::MAX - 1);
    assert_eq!(window.chunk_end, i64::MAX);
    assert!(window.contains(i64::MAX - 1));
}

#[test]
fn contains_is_half_open() {
    let window = Schedule { chunk_start: 10, chunk_end: 20 };
    assert!(!window.contains(9));
    assert!(window.contains(10));
    assert!(window.contains(19));
    assert!(!window.contains(20));
    let empty = Schedule { chunk_start: 5, chunk_end: 5 };
    assert!(!empty.contains(5));
}

#[test]
fn windows_of_one_width_do_not_overlap() {
    let config = ScheduleConfig::new(7).unwrap();
    for time in 0..100i64 {
        let window = config.init_schedule_from_time(time);
        assert!(window.contains(time));
        assert_eq!(window.chunk_start % 7, 0);
        assert_eq!(window.chunk_end - window.chunk_start, 7);
        let again = config.init_schedule_from_time(window.chunk_start);
        assert_eq!(again, window);
        let next = config.init_schedule_from_time(window.chunk_end);
        assert_eq!(next.chunk_start, window.chunk_end);
    }
}
