use kelpie::chunk::{
    raw_compress, raw_decompress, read_header, split_frame, to_bits, to_signed, write_frame,
    write_header, zip_series,
};
use kelpie::{Chunk, DataPoint, DecompressError, RawSeries};
use rand::rngs::SmallRng;
use rand::{Rng, SeedableRng};

fn decompressed_eq_compressed(raw: &RawSeries) -> Result<bool, String> {
    let compressed = raw_compress(raw).unwrap();
    let decompressed = match raw_decompress(&compressed) {
        Ok(v) => v,
        Err(_e) => return Err(format!("failed to decompress")),
    };

    println!(
        "raw: {}, compressed: {}, ratio: {}",
        raw.serial_size_hint(),
        compressed.len(),
        compressed.len() as f64 / raw.serial_size_hint() as f64
    );
    Ok(raw.eq(&decompressed))
}

#[test]
fn should_cycle_compression() {
    let mut rng = SmallRng::seed_from_u64(0xdeadbeef);
    let mut series = vec![];
    // float series
    for _ in 0..500 {
        let mut serie: RawSeries = RawSeries::new();
        let num_points: u16 = rng.gen_range(3500..3700);
        let mut last_time_ms: i64 = 1722180250000;
        let mut last_val: f64 = rng.gen_range(0.0..100.0);
        let val_variance: f64 = rng.gen_range(0.01..20.0);
        for _ in 0..num_points {
            let time_inc = rng.gen_range(400..1100);
            last_time_ms += time_inc;
            let time = last_time_ms;
            let val_inc = rng.gen_range(-val_variance..val_variance);
            last_val += val_inc;
            // truncate precision of floats to simulate less random measurements
            let value = f64::from_bits(last_val.to_bits() & (!0 << 16));
            assert!((last_val - value).abs() < 1.0);
            serie.insert(DataPoint {
                time,
                value: value.to_bits(),
            })
        }
        series.push(serie);
    }

    // int as float series
    for _ in 0..30 {
        let mut serie: RawSeries = RawSeries::new();
        let num_points: u16 = rng.gen_range(3500..3700);
        let mut last_time_ms: i64 = 1722180250000;
        let mut last_val: i64 = rng.gen_range(0..100000);
        let val_variance: i64 = rng.gen_range(10..100);
        for _ in 0..num_points {
            let time_inc = rng.gen_range(400..1102);
            last_time_ms += time_inc;
            let time = last_time_ms;
            let val_inc = rng.gen_range(-val_variance..val_variance);
            last_val += val_inc;
            serie.insert(DataPoint {
                time,
                value: (last_val as f64).to_bits(),
            })
        }
        series.push(serie);
    }

    for serie in series {
        assert!(decompressed_eq_compressed(&serie).unwrap(), "not equal");
    }
}

#[test]
fn should_compress_raw_series() {
    let mut series = RawSeries::new();
    let test_time_secs = 1722180250;
    for i in 0..3600 * 6 {
        series.insert(DataPoint {
            time: (test_time_secs + i) * 1000,
            value: (i as f64 * 100.0).to_bits(),
        });
    }
    let encoded = raw_compress(&series).unwrap();
    println!(
        "raw: {}, compressed: {}, ratio: {}",
        series.serial_size_hint(),
        encoded.len(),
        encoded.len() as f64 / series.serial_size_hint() as f64
    );
    assert!(encoded.len() < series.serial_size_hint());
    assert!(raw_decompress(&encoded).unwrap() == series);
}

#[test]
fn header_is_eight_bytes_least_significant_first() {
    let mut out = vec![0xaa];
    write_header(&mut out, 0x0102_0304_0506_0708);
    assert_eq!(out, vec![0xaa, 8, 7, 6, 5, 4, 3, 2, 1]);
    assert_eq!(read_header(&out, 1), 0x0102_0304_0506_0708);
    let mut out = vec![];
    write_header(&mut out, u64::MAX);
    assert_eq!(out, vec![0xff; 8]);
    assert_eq!(read_header(&out, 0), u64::MAX);
    let mut out = vec![];
    write_header(&mut out, 300);
    assert_eq!(out, vec![44, 1, 0, 0, 0, 0, 0, 0]);
}

#[test]
fn frame_is_two_columns_behind_their_lengths() {
    let framed = write_frame(&vec![1, 2, 3], &vec![9, 8]);
    assert_eq!(
        framed,
        vec![3, 0, 0, 0, 0, 0, 0, 0, 1, 2, 3, 2, 0, 0, 0, 0, 0, 0, 0, 9, 8]
    );
    let (times, vals) = split_frame(&framed).unwrap();
    assert_eq!(times, &[1, 2, 3]);
    assert_eq!(vals, &[9, 8]);
    let framed = write_frame(&vec![], &vec![]);
    assert_eq!(framed, vec![0; 16]);
    let (times, vals) = split_frame(&framed).unwrap();
    assert!(times.is_empty());
    assert!(vals.is_empty());
}

#[test]
fn split_frame_does_not_read_what_follows_the_value_column() {
    let mut framed = write_frame(&vec![1, 2, 3], &vec![9, 8]);
    framed.extend_from_slice(&[7, 7, 7]);
    let (times, vals) = split_frame(&framed).unwrap();
    assert_eq!(times, &[1, 2, 3]);
    assert_eq!(vals, &[9, 8]);
}

#[test]
fn split_frame_says_what_is_missing() {
    assert_eq!(split_frame(&[]), Err(DecompressError::TimeHeaderMissing));
    assert_eq!(split_frame(&[0; 7]), Err(DecompressError::TimeHeaderMissing));
    assert_eq!(split_frame(&[0; 8]), Err(DecompressError::ValHeaderMissing));
    assert_eq!(split_frame(&[0; 15]), Err(DecompressError::ValHeaderMissing));
    assert_eq!(
        split_frame(&[1, 0, 0, 0, 0, 0, 0, 0]),
        Err(DecompressError::TimesMissing)
    );
    assert_eq!(
        split_frame(&[0xff; 8]),
        Err(DecompressError::TimesMissing)
    );
    assert_eq!(
        split_frame(&[2, 0, 0, 0, 0, 0, 0, 0, 5, 5, 1, 0, 0, 0, 0, 0, 0]),
        Err(DecompressError::ValHeaderMissing)
    );
    assert_eq!(
        split_frame(&[2, 0, 0, 0, 0, 0, 0, 0, 5, 5, 1, 0, 0, 0, 0, 0, 0, 0]),
        Err(DecompressError::ValsMissing)
    );
    assert_eq!(
        split_frame(&[0, 0, 0, 0, 0, 0, 0, 0, 0xff, 0xff, 0xff, 0xff, 0xff, 0xff, 0xff, 0xff]),
        Err(DecompressError::ValsMissing)
    );
    assert!(split_frame(&[2, 0, 0, 0, 0, 0, 0, 0, 5, 5, 1, 0, 0, 0, 0, 0, 0, 0, 6]).is_ok());
}

#[test]
fn decompress_says_what_is_missing() {
    assert!(matches!(
        raw_decompress(&[]),
        Err(DecompressError::TimeHeaderMissing)
    ));
    assert!(matches!(
        raw_decompress(&[9, 0, 0, 0, 0, 0, 0, 0, 1]),
        Err(DecompressError::TimesMissing)
    ));
    assert!(matches!(
        raw_decompress(&[1, 0, 0, 0, 0, 0, 0, 0, 1, 2, 3]),
        Err(DecompressError::ValHeaderMissing)
    ));
    assert!(matches!(
        raw_decompress(&[0, 0, 0, 0, 0, 0, 0, 0, 4, 0, 0, 0, 0, 0, 0, 0, 1, 2, 3]),
        Err(DecompressError::ValsMissing)
    ));
    assert!(matches!(
        raw_decompress(&[0; 16]),
        Err(DecompressError::CodecError(_))
    ));
    assert!(matches!(
        raw_decompress(&write_frame(&vec![1, 2, 3], &vec![4, 5, 6])),
        Err(DecompressError::CodecError(_))
    ));
    let chunk = Chunk { compressed_data: vec![0; 3] };
    assert!(matches!(chunk.decompress(), Err(DecompressError::TimeHeaderMissing)));
}

#[test]
fn bits_and_signed_numbers_stand_for_each_other() {
    let cases: [(u64, i64); 7] = [
        (0, 0),
        (1, 1),
        (0x7fff_ffff_ffff_ffff, i64::MAX),
        (0x8000_0000_0000_0000, -1),
        (0x8000_0000_0000_0001, -2),
        (0xbff0_0000_0000_0000, -0x3ff0_0000_0000_0001),
        (u64::MAX, i64::MIN),
    ];
    for (bits, signed) in cases {
        assert_eq!(to_signed(bits), signed);
        assert_eq!(to_bits(signed), bits);
    }
    assert_eq!(to_signed((-0.0f64).to_bits()), -1);
    assert_eq!(to_signed(0.0f64.to_bits()), 0);
    assert_eq!(to_signed(1.0f64.to_bits()), 0x3ff0_0000_0000_0000);
    assert_eq!(to_signed((-1.0f64).to_bits()), -0x3ff0_0000_0000_0001);
}

#[test]
fn signed_numbers_are_ordered_as_the_values_are() {
    let ascending = [
        f64::NEG_INFINITY,
        f64::MIN,
        -8.914951611789743e303,
        -1.5,
        -f64::MIN_POSITIVE,
        -1.22e-321,
        -0.0,
        0.0,
        1.22e-321,
        f64::MIN_POSITIVE,
        1.5,
        2.773899791842187e209,
        f64::MAX,
        f64::INFINITY,
    ];
    for pair in ascending.windows(2) {
        assert!(
            to_signed(pair[0].to_bits()) < to_signed(pair[1].to_bits()),
            "{} and {}",
            pair[0],
            pair[1]
        );
    }
    let mut rng = SmallRng::seed_from_u64(7);
    for _ in 0..10_000 {
        let a = f64::from_bits(rng.gen());
        let b = f64::from_bits(rng.gen());
        assert_eq!(to_bits(to_signed(a.to_bits())), a.to_bits());
        if a < b {
            assert!(to_signed(a.to_bits()) < to_signed(b.to_bits()));
        }
    }
}

#[test]
fn zip_series_goes_as_far_as_both_columns_reach() {
    let series = zip_series(&vec![10, 20, 30], &vec![1, 2]);
    assert_eq!(
        series.to_vec(),
        vec![
            DataPoint { time: 10, value: 1 },
            DataPoint { time: 20, value: 2 }
        ]
    );
    let series = zip_series(&vec![10], &vec![1, 2, 3]);
    assert_eq!(series.to_vec(), vec![DataPoint { time: 10, value: 1 }]);
    let series = zip_series(&vec![], &vec![1]);
    assert_eq!(series.len(), 0);
}

#[test]
fn zip_series_lets_the_later_pair_win() {
    let series = zip_series(&vec![20, 10, 20], &vec![1, 2, -1]);
    assert_eq!(
        series.to_vec(),
        vec![
            DataPoint { time: 10, value: 2 },
            DataPoint { time: 20, value: 0x8000_0000_0000_0000 }
        ]
    );
}

#[test]
fn chunk_reads_back_as_the_series() {
    let mut series = RawSeries::new();
    let values = [
        0.0,
        -0.0,
        1.5,
        -1.5,
        f64::INFINITY,
        f64::NEG_INFINITY,
        f64::MIN_POSITIVE,
        1.22e-321,
        f64::MAX,
        f64::MIN,
        -8.914951611789743e303,
    ];
    for (i, value) in values.iter().enumerate() {
        series.insert(DataPoint {
            time: i as i64 * 1000,
            value: value.to_bits(),
        });
    }
    series.insert(DataPoint { time: i64::MAX - 1, value: 7 });
    let chunk = Chunk::compress_series(&series).unwrap();
    let back = chunk.decompress().unwrap();
    assert!(back == series);
    assert_eq!(back.to_vec(), series.to_vec());
    assert_eq!(back.get(1000), Some((-0.0f64).to_bits()));
}

#[test]
fn chunk_of_the_empty_series_reads_back_empty() {
    let chunk = Chunk::compress_series(&RawSeries::new()).unwrap();
    assert!(chunk.compressed_data.len() >= 16);
    let back = chunk.decompress().unwrap();
    assert_eq!(back.len(), 0);
}

#[test]
fn chunk_keeps_times_before_zero_and_nan_bits() {
    let mut series = RawSeries::new();
    series.insert(DataPoint { time: i64::MIN, value: f64::NAN.to_bits() });
    series.insert(DataPoint { time: -1, value: 0xffff_ffff_ffff_ffff });
    series.insert(DataPoint { time: i64::MAX, value: 0x7ff0_0000_0000_0001 });
    let bytes = raw_compress(&series).unwrap();
    let back = raw_decompress(&bytes).unwrap();
    assert_eq!(back.to_vec(), series.to_vec());
}

#[test]
fn chunk_frames_what_the_codec_wrote() {
    let mut series = RawSeries::new();
    for i in 0..100i64 {
        series.insert(DataPoint { time: i * 10, value: (i as f64).to_bits() });
    }
    let bytes = raw_compress(&series).unwrap();
    let (times, vals) = split_frame(&bytes).unwrap();
    assert_eq!(bytes.len(), 16 + times.len() + vals.len());
    assert_eq!(read_header(&bytes, 0), times.len() as u64);
    assert_eq!(read_header(&bytes, 8 + times.len()), vals.len() as u64);
    let config = pco::ChunkConfig::default()
        .with_compression_level(8)
        .with_mode_spec(pco::ModeSpec::Classic);
    let time_column: Vec<i64> = (0..100i64).map(|i| i * 10).collect();
    let expected_times = pco::standalone::simple_compress(
        &time_column,
        &config.clone().with_delta_spec(pco::DeltaSpec::TryConsecutive(2)),
    )
    .unwrap();
    assert_eq!(times, expected_times.as_slice());
    let value_column: Vec<i64> = (0..100i64)
        .map(|i| to_signed((i as f64).to_bits()))
        .collect();
    let expected_vals = pco::standalone::simple_compress(
        &value_column,
        &config.with_delta_spec(pco::DeltaSpec::TryConsecutive(1)),
    )
    .unwrap();
    assert_eq!(vals, expected_vals.as_slice());
    assert_eq!(
        pco::standalone::simple_decompress::<i64>(times).unwrap(),
        time_column
    );
}

#[test]
fn value_column_differs_from_the_codecs_own_for_floats_by_the_type_only() {
    let mut series = RawSeries::new();
    let mut floats = vec![];
    let mut rng = SmallRng::seed_from_u64(11);
    let mut value: f64 = 0.0;
    for i in 0..2000i64 {
        value += rng.gen_range(-1.0..1.0);
        floats.push(value);
        series.insert(DataPoint { time: i, value: value.to_bits() });
    }
    let bytes = raw_compress(&series).unwrap();
    let (_, vals) = split_frame(&bytes).unwrap();
    let config = pco::ChunkConfig::default()
        .with_compression_level(8)
        .with_mode_spec(pco::ModeSpec::Classic)
        .with_delta_spec(pco::DeltaSpec::TryConsecutive(1));
    let as_floats = pco::standalone::simple_compress(&floats, &config).unwrap();
    assert_eq!(vals.len(), as_floats.len());
    let differing = vals
        .iter()
        .zip(as_floats.iter())
        .filter(|(a, b)| a != b)
        .count();
    assert_eq!(differing, 1);
}

#[test]
fn fault_of_the_codec_comes_with_what_the_codec_reported() {
    let expected = pco::standalone::simple_decompress::<i64>(&[]).unwrap_err();
    match raw_decompress(&[0; 16]) {
        Err(DecompressError::CodecError(cause)) => {
            assert_eq!(cause, expected);
            assert!(!cause.message.is_empty());
        }
        _ => panic!("no fault of the codec"),
    }
    let expected = pco::standalone::simple_decompress::<i64>(&[4, 5, 6]).unwrap_err();
    let times = pco::standalone::simple_compress(&[1i64, 2, 3], &pco::ChunkConfig::default())
        .unwrap();
    match raw_decompress(&write_frame(&times, &vec![4, 5, 6])) {
        Err(DecompressError::CodecError(cause)) => assert_eq!(cause, expected),
        _ => panic!("no fault of the codec"),
    }
}
