use kelpie::{
    Chunk, DataPoint, DecompressError, Kelpie, KelpieChunkStore, KelpieError, KelpieFake,
    RawSeries, Schedule, Series, SqliteChunkStore,
};
use rand::rngs::SmallRng;
use rand::{Rng, SeedableRng};

#[derive(Debug, Clone)]
enum Cmd {
    Insert {
        series_key: i64,
        point: DataPoint,
    },
    Query {
        series_key: i64,
        start: i64,
        stop: i64,
    },
}

fn point(time: i64, value: f64) -> DataPoint {
    DataPoint {
        time,
        value: value.to_bits(),
    }
}

fn insert(series_key: i64, time: i64, value: f64) -> Cmd {
    Cmd::Insert {
        series_key,
        point: point(time, value),
    }
}

fn query(series_key: i64, start: i64, stop: i64) -> Cmd {
    Cmd::Query {
        series_key,
        start,
        stop,
    }
}

fn series_of(points: &[(i64, f64)]) -> RawSeries {
    let mut series = RawSeries::new();
    for &(time, value) in points {
        series.insert(point(time, value));
    }
    series
}

fn kelpie_eq_fake(cmds: &[Cmd]) -> Result<(), String> {
    let mut kelpie = Kelpie::new_memory().unwrap();
    let mut fake = KelpieFake::new();
    for cmd in cmds {
        match *cmd {
            Cmd::Insert { series_key, point } => {
                kelpie.insert(series_key, point).unwrap();
                fake.insert(series_key, point);
            }
            Cmd::Query {
                series_key,
                start,
                stop,
            } => {
                let kelpie_res = kelpie.query(series_key, start, stop).unwrap();
                let fake_res = fake.query(series_key, start, stop).unwrap();
                if kelpie_res != fake_res {
                    return Err(format!("not matching"));
                }
            }
        }
    }
    Ok(())
}

#[test]
fn should_create() {
    let _kelpie = Kelpie::new_memory().unwrap();
}

#[test]
fn should_insert() {
    let mut kelpie = Kelpie::new_memory().unwrap();
    let mut rng = SmallRng::seed_from_u64(0xdeadbeef);
    // float series
    const SERIES: usize = 64;
    let mut times: [i64; SERIES] = [1722180250000; SERIES];
    let mut vals: [f64; SERIES] = [0.0; SERIES];
    let val_variance = 20.0;
    for _ in 0..100_000 {
        let series_key = rng.gen_range(0..SERIES);
        let last_time = &mut times[series_key];
        let last_val = &mut vals[series_key];

        let time_inc = rng.gen_range(400..1100);
        *last_time += time_inc;
        let time = *last_time;

        let val_inc = rng.gen_range(-val_variance..val_variance);
        *last_val += val_inc;

        // truncate precision of floats to simulate less random measurements
        let value = f64::from_bits(last_val.to_bits() & (!0 << 36));
        assert!((*last_val - value).abs() < 1.0);
        let point = DataPoint {
            time,
            value: value.to_bits(),
        };

        kelpie.insert(series_key as i64, point).unwrap();
    }
}

fn exact_query_cmds(x: i64) -> Vec<Cmd> {
    let series_key = 0;
    vec![insert(series_key, x, 0.0), query(series_key, x - 1, x + 1)]
}

#[test]
fn it_should_match_exact_query() {
    let point = 3600000;

    kelpie_eq_fake(&exact_query_cmds(point - 1)).unwrap();
    kelpie_eq_fake(&exact_query_cmds(point)).unwrap();
    kelpie_eq_fake(&exact_query_cmds(point + 1)).unwrap();
}

fn huge_query_cmds(x: i64) -> Vec<Cmd> {
    let series_key = 0;
    vec![insert(series_key, x, 0.0), query(series_key, 0, 10000000)]
}

#[test]
fn it_should_match_huge_query() {
    kelpie_eq_fake(&huge_query_cmds(3600000 - 100)).unwrap();
    kelpie_eq_fake(&huge_query_cmds(3600000 - 1)).unwrap();
    kelpie_eq_fake(&huge_query_cmds(3600000)).unwrap();
    kelpie_eq_fake(&huge_query_cmds(3600000 + 1)).unwrap();
    kelpie_eq_fake(&huge_query_cmds(3600000 + 100)).unwrap();
}

fn big_forward_diff_cmds(x: i64) -> Vec<Cmd> {
    let series_key = 0;
    vec![
        insert(series_key, 0, 0.0),
        query(series_key, 0, 1),
        insert(series_key, x, 0.0),
        query(series_key, 0, 1),
        query(series_key, x, x + 1),
    ]
}

#[test]
fn it_should_match_big_forward_diff() {
    kelpie_eq_fake(&big_forward_diff_cmds(0)).unwrap();
    kelpie_eq_fake(&big_forward_diff_cmds(1)).unwrap();
    kelpie_eq_fake(&big_forward_diff_cmds(2)).unwrap();
    kelpie_eq_fake(&big_forward_diff_cmds(100)).unwrap();
    kelpie_eq_fake(&big_forward_diff_cmds(1000)).unwrap();
    kelpie_eq_fake(&big_forward_diff_cmds(3600000 - 1)).unwrap();
    kelpie_eq_fake(&big_forward_diff_cmds(3600000)).unwrap();
    kelpie_eq_fake(&big_forward_diff_cmds(3600000 + 1)).unwrap();
    kelpie_eq_fake(&big_forward_diff_cmds(3600000 * 2)).unwrap();
}

fn huge_reverse_diff_cmds(x: i64) -> Vec<Cmd> {
    let series_key = 0;
    vec![
        insert(series_key, x, 0.0),
        query(series_key, x, x + 1),
        insert(series_key, 0, 0.0),
        query(series_key, x, x + 1),
        query(series_key, 0, 1),
    ]
}

#[test]
fn it_should_match_huge_reverse_diff() {
    kelpie_eq_fake(&huge_reverse_diff_cmds(0)).unwrap();
    kelpie_eq_fake(&huge_reverse_diff_cmds(1)).unwrap();
    kelpie_eq_fake(&huge_reverse_diff_cmds(2)).unwrap();
    kelpie_eq_fake(&huge_reverse_diff_cmds(100)).unwrap();
    kelpie_eq_fake(&huge_reverse_diff_cmds(1000)).unwrap();
    kelpie_eq_fake(&huge_reverse_diff_cmds(3600000 - 1)).unwrap();
    kelpie_eq_fake(&huge_reverse_diff_cmds(3600000)).unwrap();
    kelpie_eq_fake(&huge_reverse_diff_cmds(3600000 + 1)).unwrap();
    kelpie_eq_fake(&huge_reverse_diff_cmds(3600000 * 2)).unwrap();
}

#[test]
fn should_survie_fuzz1_test() {
    let cmds = vec![insert(-1, -1, -8.914951611789743e303), query(-1, -1, 0)];
    kelpie_eq_fake(&cmds).unwrap();
}

#[test]
fn should_survie_fuzz2_test() {
    let cmds = vec![insert(-1086626725888, 9223372036854775807, 1.22e-321)];
    kelpie_eq_fake(&cmds).unwrap();
}

#[test]
fn input1_that_kills_qcompress() {
    let series_key = 0;
    // these for vals when compressed using our qcompress settings trigger subtract with overflow in qcompress
    let vals = [
        2.8170090551184303e209,
        4.2984146959204563e204,
        2.8170090551184244e209,
        2.773899791842187e209,
    ];
    let cmds = vec![
        insert(series_key, 0, vals[0]),
        insert(series_key, 1, vals[1]),
        insert(series_key, 2, vals[2]),
        insert(series_key, 3, vals[3]),
        insert(series_key, 3600000, 0.0),
    ];
    kelpie_eq_fake(&cmds).unwrap();
}

#[test]
fn input2_that_kills_qcompress() {
    let series_key = 0;
    let chunk_size = 60 * 60 * 1000;
    let vals = [
        2.8170090551184303e209,
        2.8169933786932377e209,
        2.8170090551184303e209,
        -2.8170090551184303e209,
        2.817009055114319e209,
    ];
    let cmds = vec![
        insert(series_key, 0, vals[0]),
        insert(series_key, 1, vals[1]),
        insert(series_key, 2, vals[2]),
        insert(series_key, 3, vals[3]),
        insert(series_key, 4, vals[4]),
        insert(0, chunk_size, 0.0),
    ];
    kelpie_eq_fake(&cmds).unwrap();
}

#[test]
fn input3_that_kills_qcompress() {
    let series_key: i64 = 0;
    let a = f64::from_bits(0x8000000000004000);
    let b = f64::from_bits(0x8000000000000000);
    let cmds = vec![
        insert(series_key, 0, a),
        insert(series_key, 1, -a),
        insert(series_key, 2, b),
        insert(series_key, 60 * 60 * 1000 + 1, 0.0),
        insert(series_key, 0, 0.0),
    ];
    kelpie_eq_fake(&cmds).unwrap();
}

#[test]
fn point_at_the_start_of_a_window_is_found_by_a_query_across_the_boundary() {
    let mut kelpie = Kelpie::new_memory().unwrap();
    kelpie.insert(0, point(3_600_000, 0.0)).unwrap();
    let found = kelpie.query(0, 3_599_999, 3_600_001).unwrap();
    assert!(found == series_of(&[(3_600_000, 0.0)]));
}

#[test]
fn point_of_a_window_that_was_put_away_is_still_found() {
    let mut kelpie = Kelpie::new_memory().unwrap();
    kelpie.insert(0, point(0, 0.0)).unwrap();
    let found = kelpie.query(0, 0, 10_000_000).unwrap();
    assert!(found == series_of(&[(0, 0.0)]));
    kelpie.insert(0, point(3_600_000, 0.0)).unwrap();
    let found = kelpie.query(0, 0, 1).unwrap();
    assert!(found == series_of(&[(0, 0.0)]));
    let found = kelpie.query(0, 3_600_000, 3_600_001).unwrap();
    assert!(found == series_of(&[(3_600_000, 0.0)]));
}

#[test]
fn points_inserted_latest_window_first_are_found() {
    let mut kelpie = Kelpie::new_memory().unwrap();
    kelpie.insert(0, point(3_600_000, 0.0)).unwrap();
    kelpie.insert(0, point(0, 0.0)).unwrap();
    let found = kelpie.query(0, 3_600_000, 3_600_001).unwrap();
    assert!(found == series_of(&[(3_600_000, 0.0)]));
    let found = kelpie.query(0, 0, 1).unwrap();
    assert!(found == series_of(&[(0, 0.0)]));
}

#[test]
fn point_before_time_zero_is_passed_over() {
    let mut kelpie = Kelpie::new_memory().unwrap();
    assert!(kelpie.insert(-1, point(-1, -8.9e303)).is_ok());
    let found = kelpie.query(-1, -1, 0).unwrap();
    assert!(found == RawSeries::new());
    assert_eq!(found.len(), 0);
}

#[test]
fn point_at_the_largest_time_is_passed_over() {
    let mut kelpie = Kelpie::new_memory().unwrap();
    assert!(kelpie
        .insert(-1_086_626_725_888, point(i64::MAX, 1.22e-321))
        .is_ok());
    let ranges: [(i64, i64); 5] = [
        (i64::MAX - 1, i64::MAX),
        (i64::MAX - 3_600_000, i64::MAX),
        (0, 1),
        (-10, 10),
        (i64::MIN, i64::MIN + 10),
    ];
    for (start, stop) in ranges {
        let found = kelpie.query(-1_086_626_725_888, start, stop).unwrap();
        assert_eq!(found.len(), 0, "query from {} to {}", start, stop);
    }
}

#[test]
fn points_of_two_windows_come_back_in_time_order() {
    let mut kelpie = Kelpie::new_memory().unwrap();
    let vals = [
        2.8170090551184303e209,
        4.2984146959204563e204,
        2.8170090551184244e209,
        2.773899791842187e209,
    ];
    for (i, value) in vals.iter().enumerate() {
        kelpie.insert(0, point(i as i64, *value)).unwrap();
    }
    kelpie.insert(0, point(3_600_000, 0.0)).unwrap();
    let found = kelpie.query(0, 0, 3_600_001).unwrap();
    assert_eq!(
        found.to_vec(),
        vec![
            point(0, vals[0]),
            point(1, vals[1]),
            point(2, vals[2]),
            point(3, vals[3]),
            point(3_600_000, 0.0),
        ]
    );
}

#[test]
fn nan_is_passed_over() {
    let mut kelpie = Kelpie::new_memory().unwrap();
    assert!(kelpie.insert(0, point(5, f64::NAN)).is_ok());
    assert!(kelpie.insert(0, DataPoint { time: 6, value: 0xfff8_0000_0000_0001 }).is_ok());
    assert_eq!(kelpie.query(0, 0, 10).unwrap().len(), 0);
    kelpie.insert(0, point(5, f64::INFINITY)).unwrap();
    kelpie.insert(0, point(6, f64::NEG_INFINITY)).unwrap();
    assert_eq!(
        kelpie.query(0, 0, 10).unwrap().to_vec(),
        vec![point(5, f64::INFINITY), point(6, f64::NEG_INFINITY)]
    );
}

#[test]
fn point_at_the_end_of_a_range_is_left_out() {
    let mut kelpie = Kelpie::new_memory().unwrap();
    kelpie.insert(3, point(100, 1.0)).unwrap();
    kelpie.insert(3, point(3_600_000, 2.0)).unwrap();
    assert_eq!(kelpie.query(3, 0, 100).unwrap().len(), 0);
    assert_eq!(kelpie.query(3, 100, 101).unwrap().to_vec(), vec![point(100, 1.0)]);
    assert_eq!(
        kelpie.query(3, 0, 3_600_000).unwrap().to_vec(),
        vec![point(100, 1.0)]
    );
    assert_eq!(
        kelpie.query(3, 101, 3_600_001).unwrap().to_vec(),
        vec![point(3_600_000, 2.0)]
    );
}

#[test]
fn range_without_a_time_is_empty() {
    let mut kelpie = Kelpie::new_memory().unwrap();
    kelpie.insert(0, point(10, 1.0)).unwrap();
    assert_eq!(kelpie.query(0, 10, 10).unwrap().len(), 0);
    assert_eq!(kelpie.query(0, 11, 10).unwrap().len(), 0);
    assert_eq!(kelpie.query(0, i64::MAX, i64::MIN).unwrap().len(), 0);
    let fake = KelpieFake::new();
    assert_eq!(fake.query(0, 11, 10).unwrap().len(), 0);
}

#[test]
fn second_insert_at_a_time_replaces_the_value() {
    let mut kelpie = Kelpie::new_memory().unwrap();
    kelpie.insert(1, point(50, 1.0)).unwrap();
    kelpie.insert(1, point(50, 2.0)).unwrap();
    assert_eq!(kelpie.query(1, 0, 100).unwrap().to_vec(), vec![point(50, 2.0)]);
    kelpie.insert(1, point(3_600_000, 0.0)).unwrap();
    kelpie.insert(1, point(50, 3.0)).unwrap();
    assert_eq!(kelpie.query(1, 0, 100).unwrap().to_vec(), vec![point(50, 3.0)]);
}

#[test]
fn series_are_apart() {
    let mut kelpie = Kelpie::new_memory().unwrap();
    kelpie.insert(1, point(50, 1.0)).unwrap();
    kelpie.insert(2, point(50, 2.0)).unwrap();
    kelpie.insert(2, point(7_200_000, 3.0)).unwrap();
    assert_eq!(kelpie.query(1, 0, 100).unwrap().to_vec(), vec![point(50, 1.0)]);
    assert_eq!(kelpie.query(2, 0, 100).unwrap().to_vec(), vec![point(50, 2.0)]);
    assert_eq!(kelpie.query(3, 0, 100).unwrap().len(), 0);
    assert_eq!(kelpie.query(1, 7_200_000, 7_200_001).unwrap().len(), 0);
}

#[test]
fn points_of_many_windows_come_back_as_one_series() {
    let mut kelpie = Kelpie::new_memory().unwrap();
    let mut expected = vec![];
    for window in 0..5i64 {
        for step in 0..3i64 {
            let time = window * 3_600_000 + step * 1000 + 7;
            let value = (window * 10 + step) as f64;
            kelpie.insert(9, point(time, value)).unwrap();
            expected.push(point(time, value));
        }
    }
    let min_t = expected[0].time;
    let max_t = expected[expected.len() - 1].time;
    assert_eq!(kelpie.query(9, min_t, max_t + 1).unwrap().to_vec(), expected);
    assert_eq!(
        kelpie.query(9, min_t + 1, max_t).unwrap().to_vec(),
        expected[1..expected.len() - 1].to_vec()
    );
}

#[test]
fn query_exact_chunk_reads_the_buffer_and_the_catalog() {
    let mut kelpie = Kelpie::new_memory().unwrap();
    assert!(kelpie.query_exact_chunk(0, 0, 3_600_000).unwrap().is_none());
    kelpie.insert(0, point(5, 1.0)).unwrap();
    let (meta, series) = kelpie.query_exact_chunk(0, 0, 3_600_000).unwrap().unwrap();
    assert_eq!((meta.series_key, meta.start, meta.stop), (0, 0, 3_600_000));
    assert_eq!(series.to_vec(), vec![point(5, 1.0)]);
    kelpie.insert(0, point(3_600_005, 2.0)).unwrap();
    let (meta, series) = kelpie.query_exact_chunk(0, 0, 3_600_000).unwrap().unwrap();
    assert_eq!((meta.series_key, meta.start, meta.stop), (0, 0, 3_600_000));
    assert_eq!(series.to_vec(), vec![point(5, 1.0)]);
    let (meta, series) = kelpie
        .query_exact_chunk(0, 3_600_000, 7_200_000)
        .unwrap()
        .unwrap();
    assert_eq!((meta.series_key, meta.start, meta.stop), (0, 3_600_000, 7_200_000));
    assert_eq!(series.to_vec(), vec![point(3_600_005, 2.0)]);
    assert!(kelpie.query_exact_chunk(1, 0, 3_600_000).unwrap().is_none());
    assert!(kelpie
        .query_exact_chunk(0, 7_200_000, 10_800_000)
        .unwrap()
        .is_none());
}

#[test]
fn buffer_that_is_loaded_again_holds_what_was_put_away() {
    let mut kelpie = Kelpie::new_memory().unwrap();
    kelpie.insert(0, point(1, 1.0)).unwrap();
    kelpie.insert(0, point(2, 2.0)).unwrap();
    kelpie.insert(0, point(3_600_001, 3.0)).unwrap();
    kelpie.insert(0, point(3, 4.0)).unwrap();
    assert_eq!(
        kelpie.query(0, 0, 7_200_000).unwrap().to_vec(),
        vec![point(1, 1.0), point(2, 2.0), point(3, 4.0), point(3_600_001, 3.0)]
    );
}

#[test]
fn series_takes_points_of_its_window_only() {
    let mut series = Series::new(Schedule { chunk_start: 10, chunk_end: 20 });
    assert!(series.try_insert(point(10, 1.0)));
    assert!(series.try_insert(point(19, 2.0)));
    assert!(!series.try_insert(point(20, 3.0)));
    assert!(!series.try_insert(point(9, 4.0)));
}

#[test]
fn reference_keeps_what_is_accepted() {
    let mut fake = KelpieFake::default();
    fake.insert(0, point(-1, 1.0));
    fake.insert(0, point(i64::MAX, 1.0));
    fake.insert(0, point(5, f64::NAN));
    fake.insert(0, point(0, 1.0));
    fake.insert(0, point(i64::MAX - 1, 2.0));
    fake.insert(0, point(0, 3.0));
    assert_eq!(
        fake.query(0, i64::MIN, i64::MAX).unwrap().to_vec(),
        vec![point(0, 3.0), point(i64::MAX - 1, 2.0)]
    );
    assert_eq!(fake.query(1, i64::MIN, i64::MAX).unwrap().len(), 0);
    assert_eq!(fake.query(0, 1, i64::MAX - 1).unwrap().len(), 0);
}

#[test]
fn engine_with_a_database_file_of_its_own_works() {
    let mut kelpie = Kelpie::new_path("").unwrap();
    kelpie.insert(0, point(1, 1.0)).unwrap();
    kelpie.insert(0, point(3_600_001, 2.0)).unwrap();
    assert_eq!(
        kelpie.query(0, 0, 7_200_000).unwrap().to_vec(),
        vec![point(1, 1.0), point(3_600_001, 2.0)]
    );
}

fn fresh_path(name: &str) -> String {
    let nanos = std::time::SystemTime::now()
        .duration_since(std::time::UNIX_EPOCH)
        .unwrap()
        .as_nanos();
    format!("/tmp/kelpie_{}_{}.sqlite", name, nanos)
}

#[test]
fn engine_with_a_file_finds_what_was_put_away_before() {
    let path = fresh_path("reopen");
    {
        let mut kelpie = Kelpie::new_path(&path).unwrap();
        kelpie.insert(0, point(1, 1.0)).unwrap();
        kelpie.insert(0, point(3_600_001, 2.0)).unwrap();
        assert_eq!(
            kelpie.query(0, 0, 7_200_000).unwrap().to_vec(),
            vec![point(1, 1.0), point(3_600_001, 2.0)]
        );
    }
    let mut kelpie = Kelpie::new_path(&path).unwrap();
    assert_eq!(
        kelpie.query(0, 0, 7_200_000).unwrap().to_vec(),
        vec![point(1, 1.0)]
    );
    kelpie.insert(0, point(2, 3.0)).unwrap();
    assert_eq!(
        kelpie.query(0, 0, 7_200_000).unwrap().to_vec(),
        vec![point(1, 1.0), point(2, 3.0)]
    );
}

#[test]
fn chunk_that_cannot_be_read_fails_the_query_and_the_insert() {
    let path = fresh_path("fault");
    {
        let mut store = SqliteChunkStore::new_path(&path).unwrap();
        store
            .set_chunk(0, 0, 3_600_000, &Chunk { compressed_data: vec![1, 2, 3] })
            .unwrap();
        store
            .set_chunk(1, 0, 3_600_000, &Chunk { compressed_data: vec![0; 16] })
            .unwrap();
    }
    let mut kelpie = Kelpie::new_path(&path).unwrap();
    assert!(matches!(
        kelpie.query(0, 0, 10),
        Err(KelpieError::Decompress(DecompressError::TimeHeaderMissing))
    ));
    assert!(matches!(
        kelpie.query(1, 0, 10),
        Err(KelpieError::Decompress(DecompressError::CodecError(_)))
    ));
    assert_eq!(kelpie.query(0, 3_600_000, 3_600_010).unwrap().len(), 0);
    assert_eq!(kelpie.query(2, 0, 10).unwrap().len(), 0);
    assert!(matches!(
        kelpie.insert(0, point(5, 1.0)),
        Err(KelpieError::Decompress(DecompressError::TimeHeaderMissing))
    ));
    kelpie.insert(0, point(3_600_005, 1.0)).unwrap();
    assert_eq!(
        kelpie.query(0, 3_600_000, 3_600_010).unwrap().to_vec(),
        vec![point(3_600_005, 1.0)]
    );
    assert!(matches!(
        kelpie.insert(0, point(5, 1.0)),
        Err(KelpieError::Decompress(DecompressError::TimeHeaderMissing))
    ));
    assert_eq!(
        kelpie.query(0, 3_600_000, 3_600_010).unwrap().to_vec(),
        vec![point(3_600_005, 1.0)]
    );
    kelpie.insert(0, point(-5, 1.0)).unwrap();
    kelpie.insert(0, point(5, f64::NAN)).unwrap();
}

#[test]
fn engine_has_the_catalog_of_the_file_at_its_path() {
    let first = fresh_path("first");
    let second = fresh_path("second");
    {
        let mut kelpie = Kelpie::new_path(&first).unwrap();
        kelpie.insert(0, point(1, 1.0)).unwrap();
        kelpie.insert(0, point(3_600_001, 2.0)).unwrap();
    }
    {
        let mut kelpie = Kelpie::new_path(&second).unwrap();
        kelpie.insert(0, point(2, 3.0)).unwrap();
        kelpie.insert(0, point(3_600_002, 4.0)).unwrap();
    }
    let kelpie = Kelpie::new_path(&first).unwrap();
    assert_eq!(kelpie.query(0, 0, 10).unwrap().to_vec(), vec![point(1, 1.0)]);
    let kelpie = Kelpie::new_path(&second).unwrap();
    assert_eq!(kelpie.query(0, 0, 10).unwrap().to_vec(), vec![point(2, 3.0)]);
}

#[test]
fn engine_at_the_memory_path_holds_nothing() {
    let mut kelpie = Kelpie::new_path(":memory:").unwrap();
    assert_eq!(kelpie.query(0, 0, 7_200_000).unwrap().len(), 0);
    kelpie.insert(0, point(1, 1.0)).unwrap();
    kelpie.insert(0, point(3_600_001, 2.0)).unwrap();
    let other = Kelpie::new_path(":memory:").unwrap();
    assert_eq!(other.query(0, 0, 7_200_000).unwrap().len(), 0);
    assert_eq!(
        kelpie.query(0, 0, 7_200_000).unwrap().to_vec(),
        vec![point(1, 1.0), point(3_600_001, 2.0)]
    );
}

#[test]
fn engine_at_a_path_that_cannot_be_opened_is_refused() {
    assert!(Kelpie::new_path("/no/such/directory/kelpie.sqlite").is_err());
    assert!(SqliteChunkStore::new_path("/no/such/directory/kelpie.sqlite").is_err());
}

#[test]
fn engine_agrees_with_the_reference_on_histories_that_go_back_and_forth() {
    let mut rng = SmallRng::seed_from_u64(0x5eed);
    for _ in 0..20 {
        let mut kelpie = Kelpie::new_memory().unwrap();
        let mut fake = KelpieFake::new();
        for _ in 0..300 {
            let series_key = rng.gen_range(0..4i64);
            let window = rng.gen_range(0..6i64);
            let time = window * 3_600_000 + rng.gen_range(0..20i64) * 180_000;
            let value: f64 = rng.gen_range(-1000.0..1000.0);
            let p = match rng.gen_range(0..20) {
                0 => point(-time - 1, value),
                1 => point(time, f64::NAN),
                2 => point(i64::MAX, value),
                _ => point(time, value),
            };
            kelpie.insert(series_key, p).unwrap();
            fake.insert(series_key, p);
            if rng.gen_range(0..5) == 0 {
                let key = rng.gen_range(0..5i64);
                let start = rng.gen_range(-3_600_000..8 * 3_600_000i64);
                let stop = start + rng.gen_range(-10..8 * 3_600_000i64);
                let kelpie_res = kelpie.query(key, start, stop).unwrap();
                let fake_res = fake.query(key, start, stop).unwrap();
                assert!(kelpie_res == fake_res, "query of {} from {} to {}", key, start, stop);
            }
        }
        for key in 0..4i64 {
            let kelpie_res = kelpie.query(key, 0, 100 * 3_600_000).unwrap();
            let fake_res = fake.query(key, 0, 100 * 3_600_000).unwrap();
            assert!(kelpie_res == fake_res);
        }
    }
}

#[test]
fn window_put_away_twice_is_answered_in_full() {
    let mut kelpie = Kelpie::new_memory().unwrap();
    kelpie.insert(0, point(0, 1.0)).unwrap();
    kelpie.insert(0, point(3_600_000, 2.0)).unwrap();
    kelpie.insert(0, point(1, 3.0)).unwrap();
    assert_eq!(
        kelpie.query(0, 0, 10).unwrap().to_vec(),
        vec![point(0, 1.0), point(1, 3.0)]
    );
    kelpie.insert(0, point(3_600_001, 4.0)).unwrap();
    assert_eq!(
        kelpie.query(0, 0, 10).unwrap().to_vec(),
        vec![point(0, 1.0), point(1, 3.0)]
    );
    kelpie.insert(0, point(0, 5.0)).unwrap();
    kelpie.insert(0, point(7_200_000, 6.0)).unwrap();
    assert_eq!(
        kelpie.query(0, 0, 7_200_001).unwrap().to_vec(),
        vec![
            point(0, 5.0),
            point(1, 3.0),
            point(3_600_000, 2.0),
            point(3_600_001, 4.0),
            point(7_200_000, 6.0),
        ]
    );
}

#[test]
fn catalog_has_one_row_for_each_window_of_a_series() {
    let path = fresh_path("rows");
    {
        let mut kelpie = Kelpie::new_path(&path).unwrap();
        for round in 0..4i64 {
            kelpie.insert(0, point(round, 1.0)).unwrap();
            kelpie.insert(0, point(3_600_000 + round, 2.0)).unwrap();
            kelpie.insert(1, point(round, 3.0)).unwrap();
        }
        kelpie.insert(0, point(7_200_000, 4.0)).unwrap();
        kelpie.insert(1, point(7_200_000, 4.0)).unwrap();
    }
    let db = sqlite::open(&path).unwrap();
    let mut rows: Vec<(i64, i64, i64)> = vec![];
    let mut statement = db
        .prepare("SELECT series, start, stop FROM chunks ORDER BY series, start")
        .unwrap();
    while let sqlite::State::Row = statement.next().unwrap() {
        rows.push((
            statement.read::<i64, _>(0).unwrap(),
            statement.read::<i64, _>(1).unwrap(),
            statement.read::<i64, _>(2).unwrap(),
        ));
    }
    assert_eq!(
        rows,
        vec![
            (0, 0, 3_600_000),
            (0, 3_600_000, 7_200_000),
            (1, 0, 3_600_000),
        ]
    );
    let kelpie = Kelpie::new_path(&path).unwrap();
    assert_eq!(
        kelpie.query(0, 0, 7_200_000).unwrap().to_vec(),
        vec![
            point(0, 1.0),
            point(1, 1.0),
            point(2, 1.0),
            point(3, 1.0),
            point(3_600_000, 2.0),
            point(3_600_001, 2.0),
            point(3_600_002, 2.0),
            point(3_600_003, 2.0),
        ]
    );
}

#[test]
fn buffer_is_read_for_exactly_its_window() {
    let mut kelpie = Kelpie::new_memory().unwrap();
    kelpie.insert(0, point(5, 1.0)).unwrap();
    assert!(kelpie.query_exact_chunk(0, 0, 3_600_000).unwrap().is_some());
    assert!(kelpie.query_exact_chunk(0, 0, 3_600_001).unwrap().is_none());
    assert!(kelpie.query_exact_chunk(0, 0, 1_000).unwrap().is_none());
    assert!(kelpie.query_exact_chunk(0, 1, 3_600_000).unwrap().is_none());
    kelpie.insert(0, point(3_600_005, 2.0)).unwrap();
    let (meta, series) = kelpie.query_exact_chunk(0, 0, 1_000).unwrap().unwrap();
    assert_eq!((meta.series_key, meta.start, meta.stop), (0, 0, 3_600_000));
    assert_eq!(series.to_vec(), vec![point(5, 1.0)]);
}

impl quickcheck::Arbitrary for Cmd {
    fn arbitrary(g: &mut quickcheck::Gen) -> Self {
        let series_key = u8::arbitrary(g) as i64;
        let variant: u8 = u8::arbitrary(g);
        match variant {
            0 => {
                let start = i64::arbitrary(g);
                let size = u16::arbitrary(g);
                Cmd::Query {
                    series_key,
                    start,
                    stop: start.saturating_add(size as i64),
                }
            }
            _ => Cmd::Insert {
                series_key,
                point: DataPoint {
                    time: u32::arbitrary(g) as i64,
                    value: (f32::arbitrary(g) as f64).to_bits(),
                },
            },
        }
    }
}

fn matches_fake_on(cmds: Vec<Cmd>) -> bool {
    kelpie_eq_fake(&cmds).is_ok()
}

#[test]
fn matches_fake() {
    quickcheck::QuickCheck::new().quickcheck(matches_fake_on as fn(Vec<Cmd>) -> bool);
}
