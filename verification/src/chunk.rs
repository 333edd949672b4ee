//! Chunks: a series written as two compressed columns, each behind a header
//! of eight bytes that holds the column's length.
//!
//! The columns are compressed by `pco`. The time column goes to it as it is;
//! the value column goes to it as signed integers that stand for the values'
//! bit patterns one for one and are ordered as the values are.

use vstd::prelude::*;
use crate::series::{DataPoint, RawSeries, as_map, ascending, lemma_insert_at};

verus! {

/// The compression level both columns are written with.
pub const COMPRESSION_LEVEL: usize = 8;

/// The order of differences taken of the time column.
pub const TIME_DELTA_ORDER: usize = 2;

/// The order of differences taken of the value column.
pub const VALUE_DELTA_ORDER: usize = 1;

/// `pco::errors::PcoError`, what the codec reports when it fails, as a value
/// that is passed on and not looked into.
#[verifier::external_type_specification]
#[verifier::external_body]
pub struct ExCodecError(pco::errors::PcoError);

/// The ways in which bytes can fail to be a chunk.
#[derive(Clone, Copy, Debug, PartialEq, Eq, Structural)]
pub enum DecompressFault {
    /// Fewer than eight bytes: the length of the time column is not there.
    TimeHeaderMissing,
    /// The time column is shorter than its header says.
    TimesMissing,
    /// Fewer than eight bytes follow the time column.
    ValHeaderMissing,
    /// The value column is shorter than its header says.
    ValsMissing,
    /// The codec could not read one of the two columns.
    CodecError,
}

/// Why bytes could not be read as a chunk: the fault, and with a fault of
/// the codec what the codec reported.
#[derive(Debug, PartialEq, Eq)]
pub enum DecompressError {
    /// Fewer than eight bytes: the length of the time column is not there.
    TimeHeaderMissing,
    /// The time column is shorter than its header says.
    TimesMissing,
    /// Fewer than eight bytes follow the time column.
    ValHeaderMissing,
    /// The value column is shorter than its header says.
    ValsMissing,
    /// The codec could not read one of the two columns.
    CodecError(pco::errors::PcoError),
}

impl DecompressError {
    /// The fault that the error reports.
    pub open spec fn fault(self) -> DecompressFault {
        match self {
            DecompressError::TimeHeaderMissing => DecompressFault::TimeHeaderMissing,
            DecompressError::TimesMissing => DecompressFault::TimesMissing,
            DecompressError::ValHeaderMissing => DecompressFault::ValHeaderMissing,
            DecompressError::ValsMissing => DecompressFault::ValsMissing,
            DecompressError::CodecError(_) => DecompressFault::CodecError,
        }
    }
}

/// Why a series could not be written as a chunk.
#[derive(Debug, PartialEq, Eq)]
pub enum CompressError {
    /// The codec could not write one of the two columns; with what the
    /// codec reported.
    CodecError(pco::errors::PcoError),
}

/// How the codec is to take a column.
#[derive(Clone, Copy, Debug, PartialEq, Eq, Structural)]
pub enum ColumnMode {
    /// As the numbers that it holds, without looking for a common factor
    /// or any other form in them.
    Classic,
}

/// The mode both columns are written in.
pub const COLUMN_MODE: ColumnMode = ColumnMode::Classic;

/// The number that eight bytes hold, the least significant byte first.
pub open spec fn header_value(s: Seq<u8>) -> int
    recommends
        s.len() == 8,
{
    s[0] as int + 256 * (s[1] as int + 256 * (s[2] as int + 256 * (s[3] as int + 256 * (s[4] as int
        + 256 * (s[5] as int + 256 * (s[6] as int + 256 * (s[7] as int)))))))
}

/// The eight bytes that hold `x`, the least significant byte first.
pub open spec fn header_bytes(x: u64) -> Seq<u8> {
    seq![
        (x % 256) as u8,
        (x / 256 % 256) as u8,
        (x / 256 / 256 % 256) as u8,
        (x / 256 / 256 / 256 % 256) as u8,
        (x / 256 / 256 / 256 / 256 % 256) as u8,
        (x / 256 / 256 / 256 / 256 / 256 % 256) as u8,
        (x / 256 / 256 / 256 / 256 / 256 / 256 % 256) as u8,
        (x / 256 / 256 / 256 / 256 / 256 / 256 / 256 % 256) as u8,
    ]
}

/// A header holds the number it was written from.
pub proof fn lemma_header_round_trip(x: u64)
    ensures
        header_bytes(x).len() == 8,
        header_value(header_bytes(x)) == x,
{
    let x1 = x / 256;
    let x2 = x1 / 256;
    let x3 = x2 / 256;
    let x4 = x3 / 256;
    let x5 = x4 / 256;
    let x6 = x5 / 256;
    let x7 = x6 / 256;
    assert(x7 < 256);
    let s = header_bytes(x);
    assert(s[0] == x % 256 && s[1] == x1 % 256 && s[2] == x2 % 256 && s[3] == x3 % 256);
    assert(s[4] == x4 % 256 && s[5] == x5 % 256 && s[6] == x6 % 256 && s[7] == x7);
}

/// A chunk's bytes: each column's length, then the column.
pub open spec fn frame(times: Seq<u8>, vals: Seq<u8>) -> Seq<u8> {
    header_bytes(times.len() as u64) + times + header_bytes(vals.len() as u64) + vals
}

/// The two columns that a chunk's bytes frame, or what is missing. Bytes
/// after the value column are not read.
pub open spec fn frame_parts(bytes: Seq<u8>) -> Result<(Seq<u8>, Seq<u8>), DecompressFault> {
    if bytes.len() < 8 {
        Err(DecompressFault::TimeHeaderMissing)
    } else {
        let times_len = header_value(bytes.subrange(0, 8));
        if bytes.len() < 8 + times_len {
            Err(DecompressFault::TimesMissing)
        } else if bytes.len() - (8 + times_len) < 8 {
            Err(DecompressFault::ValHeaderMissing)
        } else {
            let vals_len = header_value(bytes.subrange(8 + times_len, 16 + times_len));
            if bytes.len() < 16 + times_len + vals_len {
                Err(DecompressFault::ValsMissing)
            } else {
                Ok(
                    (
                        bytes.subrange(8, 8 + times_len),
                        bytes.subrange(16 + times_len, 16 + times_len + vals_len),
                    ),
                )
            }
        }
    }
}

/// What was framed is what the frame's bytes are read as.
pub proof fn lemma_frame_round_trip(times: Seq<u8>, vals: Seq<u8>)
    requires
        times.len() <= u64::MAX,
        vals.len() <= u64::MAX,
    ensures
        frame_parts(frame(times, vals)) == Ok::<_, DecompressFault>((times, vals)),
{
    let bytes = frame(times, vals);
    let tl = times.len() as int;
    let vl = vals.len() as int;
    lemma_header_round_trip(times.len() as u64);
    lemma_header_round_trip(vals.len() as u64);
    assert(bytes.len() == 16 + tl + vl);
    assert(bytes.subrange(0, 8) =~= header_bytes(times.len() as u64));
    assert(bytes.subrange(8 + tl, 16 + tl) =~= header_bytes(vals.len() as u64));
    assert(bytes.subrange(8, 8 + tl) =~= times);
    assert(bytes.subrange(16 + tl, 16 + tl + vl) =~= vals);
}

/// Reads the header that starts at `at`.
pub fn read_header(bytes: &[u8], at: usize) -> (r: u64)
    requires
        at + 8 <= bytes@.len(),
    ensures
        r == header_value(bytes@.subrange(at as int, at + 8)),
{
    let n = bytes.len();
    let ghost s = bytes@.subrange(at as int, at + 8);
    assert(forall|i: int| 0 <= i < 8 ==> s[i] == bytes@[at + i]);
    let mut r: u64 = bytes[at + 7] as u64;
    r = r * 256 + bytes[at + 6] as u64;
    r = r * 256 + bytes[at + 5] as u64;
    r = r * 256 + bytes[at + 4] as u64;
    r = r * 256 + bytes[at + 3] as u64;
    r = r * 256 + bytes[at + 2] as u64;
    r = r * 256 + bytes[at + 1] as u64;
    r = r * 256 + bytes[at] as u64;
    r
}

/// Writes `x` as a header at the end of `out`.
pub fn write_header(out: &mut Vec<u8>, x: u64)
    ensures
        final(out)@ == old(out)@ + header_bytes(x),
{
    let b0 = (x % 256) as u8;
    let x1 = x / 256;
    let b1 = (x1 % 256) as u8;
    let x2 = x1 / 256;
    let b2 = (x2 % 256) as u8;
    let x3 = x2 / 256;
    let b3 = (x3 % 256) as u8;
    let x4 = x3 / 256;
    let b4 = (x4 % 256) as u8;
    let x5 = x4 / 256;
    let b5 = (x5 % 256) as u8;
    let x6 = x5 / 256;
    let b6 = (x6 % 256) as u8;
    let x7 = x6 / 256;
    let b7 = (x7 % 256) as u8;
    out.push(b0);
    out.push(b1);
    out.push(b2);
    out.push(b3);
    out.push(b4);
    out.push(b5);
    out.push(b6);
    out.push(b7);
    assert(out@ =~= old(out)@ + header_bytes(x));
}

/// Frames two compressed columns as a chunk's bytes.
pub fn write_frame(times: &Vec<u8>, vals: &Vec<u8>) -> (out: Vec<u8>)
    ensures
        out@ == frame(times@, vals@),
        frame_parts(out@) == Ok::<_, DecompressFault>((times@, vals@)),
        times@.len() <= u64::MAX,
        vals@.len() <= u64::MAX,
{
    let times_len = times.len();
    let vals_len = vals.len();
    proof {
        lemma_frame_round_trip(times@, vals@);
    }
    let mut out: Vec<u8> = Vec::new();
    write_header(&mut out, times_len as u64);
    out.extend_from_slice(times.as_slice());
    write_header(&mut out, vals_len as u64);
    out.extend_from_slice(vals.as_slice());
    assert(out@ =~= frame(times@, vals@));
    out
}

/// Finds the two columns in a chunk's bytes.
pub fn split_frame(bytes: &[u8]) -> (r: Result<(&[u8], &[u8]), DecompressError>)
    ensures
        match r {
            Ok((t, v)) => frame_parts(bytes@) == Ok::<_, DecompressFault>((t@, v@)),
            Err(e) => frame_parts(bytes@) == Err::<(Seq<u8>, Seq<u8>), _>(e.fault()),
        },
{
    let n = bytes.len();
    if n < 8 {
        return Err(DecompressError::TimeHeaderMissing);
    }
    let times_len = read_header(bytes, 0);
    if times_len > (n - 8) as u64 {
        return Err(DecompressError::TimesMissing);
    }
    let times_end: usize = 8 + times_len as usize;
    if n - times_end < 8 {
        return Err(DecompressError::ValHeaderMissing);
    }
    let vals_len = read_header(bytes, times_end);
    if vals_len > (n - times_end - 8) as u64 {
        return Err(DecompressError::ValsMissing);
    }
    let vals_start: usize = times_end + 8;
    let vals_end: usize = vals_start + vals_len as usize;
    let times = &bytes[8..times_end];
    let vals = &bytes[vals_start..vals_end];
    Ok((times, vals))
}

/// The largest bit pattern of a value whose sign bit is clear.
pub const SIGN_CLEAR_MAX: u64 = 0x7fff_ffff_ffff_ffff;

/// The signed integer that stands for a value's bit pattern in the value
/// column. A pattern whose sign bit is clear stands as it is; one whose sign
/// bit is set stands as the negative of what follows the sign bit, less one.
/// So the integers of two values that are numbers are ordered as the values
/// are, with the zero of negative sign just below the zero of positive sign.
pub open spec fn signed_of(bits: u64) -> i64 {
    if bits <= SIGN_CLEAR_MAX {
        bits as i64
    } else {
        (SIGN_CLEAR_MAX - bits) as i64
    }
}

/// The bit pattern that a signed integer of the value column stands for.
pub open spec fn bits_of(v: i64) -> u64 {
    if v >= 0 {
        v as u64
    } else {
        (SIGN_CLEAR_MAX - v) as u64
    }
}

/// A bit pattern and the integer that stands for it give each other back.
pub proof fn lemma_signed_round_trip(bits: u64, v: i64)
    ensures
        bits_of(signed_of(bits)) == bits,
        signed_of(bits_of(v)) == v,
{
}

/// The integer that stands for a bit pattern in the value column.
pub fn to_signed(bits: u64) -> (r: i64)
    ensures
        r == signed_of(bits),
{
    if bits <= SIGN_CLEAR_MAX {
        bits as i64
    } else {
        -((bits - SIGN_CLEAR_MAX - 1) as i64) - 1
    }
}

/// The bit pattern that an integer of the value column stands for.
pub fn to_bits(v: i64) -> (r: u64)
    ensures
        r == bits_of(v),
{
    if v >= 0 {
        v as u64
    } else {
        (-(v + 1)) as u64 + SIGN_CLEAR_MAX + 1
    }
}

/// The times of `points`, in their order.
pub open spec fn times_of(points: Seq<DataPoint>) -> Seq<i64> {
    Seq::new(points.len(), |i: int| points[i].time)
}

/// The values of `points`, in their order, each as the signed integer that
/// stands for it.
pub open spec fn values_of(points: Seq<DataPoint>) -> Seq<i64> {
    Seq::new(points.len(), |i: int| signed_of(points[i].value))
}

/// The mapping made by taking the first `n` pairs of the two columns in
/// turn; a time that comes again takes the later value.
pub open spec fn zipped(times: Seq<i64>, vals: Seq<i64>, n: nat) -> Map<i64, u64>
    decreases n,
{
    if n == 0 {
        Map::empty()
    } else {
        zipped(times, vals, (n - 1) as nat).insert(times[n - 1], bits_of(vals[n - 1]))
    }
}

/// The mapping that two columns make, pair by pair, as far as both reach.
pub open spec fn zip_columns(times: Seq<i64>, vals: Seq<i64>) -> Map<i64, u64> {
    zipped(
        times,
        vals,
        if times.len() <= vals.len() {
            times.len()
        } else {
            vals.len()
        },
    )
}

/// The columns of an ascending sequence of points make the points' mapping
/// again.
pub proof fn lemma_zip_of_columns(points: Seq<DataPoint>, n: nat)
    requires
        ascending(points),
        n <= points.len(),
    ensures
        zipped(times_of(points), values_of(points), n) == as_map(points.subrange(0, n as int)),
        ascending(points.subrange(0, n as int)),
    decreases n,
{
    let head = points.subrange(0, n as int);
    if n == 0 {
        assert(as_map(head) =~= Map::<i64, u64>::empty());
    } else {
        let before = points.subrange(0, n - 1);
        lemma_zip_of_columns(points, (n - 1) as nat);
        let p = points[n - 1];
        assert forall|j: int| 0 <= j < n - 1 implies (#[trigger] before[j]).time < p.time by {
            assert(before[j] == points[j]);
            assert(points[j].time < points[n - 1].time);
        }
        lemma_insert_at(before, n - 1, p);
        assert(before.insert(n - 1, p) =~= head);
        lemma_signed_round_trip(p.value, 0);
    }
}

/// What the codec reads from `bytes`: the numbers of a column, or nothing
/// where it finds the bytes at fault.
pub uninterp spec fn codec_decoded(bytes: Seq<u8>) -> Option<Seq<i64>>;

/// What the codec writes for `nums` in the classic mode, at a level and an
/// order of differences: the column's bytes, or nothing where it refuses.
pub uninterp spec fn codec_encoded(nums: Seq<i64>, level: usize, delta_order: usize) -> Option<
    Seq<u8>,
>;

/// Calls `pco::standalone::simple_compress` on signed 64-bit numbers, in
/// the mode given, at the given level and with consecutive differences of
/// the given order. Trusted: the outcome depends on the arguments alone, and
/// bytes that come back are read by the codec as the same numbers again
/// (the codec is lossless).
#[verifier::external_body]
fn codec_encode(nums: &Vec<i64>, mode: ColumnMode, level: usize, delta_order: usize) -> (r: Result<
    Vec<u8>,
    pco::errors::PcoError,
>)
    ensures
        r is Ok <==> codec_encoded(nums@, level, delta_order) is Some,
        r matches Ok(b) ==> codec_encoded(nums@, level, delta_order) == Some(b@)
            && codec_decoded(b@) == Some(nums@),
{
    let config = pco::ChunkConfig::default()
        .with_compression_level(level)
        .with_mode_spec(match mode {
            ColumnMode::Classic => pco::ModeSpec::Classic,
        })
        .with_delta_spec(pco::DeltaSpec::TryConsecutive(delta_order));
    pco::standalone::simple_compress(nums.as_slice(), &config)
}

/// Calls `pco::standalone::simple_decompress` for signed 64-bit numbers.
/// Trusted: the outcome depends on the bytes alone.
#[verifier::external_body]
fn codec_decode(bytes: &[u8]) -> (r: Result<Vec<i64>, pco::errors::PcoError>)
    ensures
        r is Ok <==> codec_decoded(bytes@) is Some,
        r matches Ok(v) ==> codec_decoded(bytes@) == Some(v@),
{
    pco::standalone::simple_decompress::<i64>(bytes)
}

/// The chunk bytes that the points of a series are written as, where the
/// codec writes both columns.
pub open spec fn compressed(points: Seq<DataPoint>) -> Option<Seq<u8>> {
    match (
        codec_encoded(times_of(points), COMPRESSION_LEVEL, TIME_DELTA_ORDER),
        codec_encoded(values_of(points), COMPRESSION_LEVEL, VALUE_DELTA_ORDER),
    ) {
        (Some(t), Some(v)) => Some(frame(t, v)),
        _ => None,
    }
}

/// The mapping that two columns of bytes hold once the codec has read them.
pub open spec fn decoded_columns(times: Seq<u8>, vals: Seq<u8>) -> Result<
    Map<i64, u64>,
    DecompressFault,
> {
    match (codec_decoded(times), codec_decoded(vals)) {
        (Some(t), Some(v)) => Ok(zip_columns(t, v)),
        _ => Err(DecompressFault::CodecError),
    }
}

/// The mapping that a chunk's bytes hold, or why they hold none.
pub open spec fn decompressed(bytes: Seq<u8>) -> Result<Map<i64, u64>, DecompressFault> {
    match frame_parts(bytes) {
        Ok((t, v)) => decoded_columns(t, v),
        Err(e) => Err(e),
    }
}

/// The round trip of a chunk, as far as it is this library's: when the codec
/// reads two columns of bytes as the times and the values of an ascending
/// sequence of points, the chunk framed from the two reads as the mapping
/// that the points make.
pub proof fn lemma_chunk_round_trip(points: Seq<DataPoint>, times: Seq<u8>, vals: Seq<u8>)
    requires
        ascending(points),
        times.len() <= u64::MAX,
        vals.len() <= u64::MAX,
        decoded_columns(times, vals) == Ok::<_, DecompressFault>(
            zip_columns(times_of(points), values_of(points)),
        ),
    ensures
        decompressed(frame(times, vals)) == Ok::<_, DecompressFault>(as_map(points)),
{
    lemma_frame_round_trip(times, vals);
    lemma_zip_of_columns(points, points.len());
    assert(points.subrange(0, points.len() as int) =~= points);
}

/// Whether a result of reading a chunk is the series or the error that
/// `model` names.
pub open spec fn reads_as(
    r: Result<RawSeries, DecompressError>,
    model: Result<Map<i64, u64>, DecompressFault>,
) -> bool {
    match r {
        Ok(s) => s.wf() && model == Ok::<_, DecompressFault>(s@),
        Err(e) => model == Err::<Map<i64, u64>, _>(e.fault()),
    }
}

/// The series that two columns of numbers make, pair by pair, as far as both
/// reach; a time that comes again takes the later value.
pub fn zip_series(times: &Vec<i64>, vals: &Vec<i64>) -> (r: RawSeries)
    ensures
        r.wf(),
        r@ == zip_columns(times@, vals@),
{
    let n = if times.len() <= vals.len() {
        times.len()
    } else {
        vals.len()
    };
    let mut series = RawSeries::new();
    let mut i: usize = 0;
    while i < n
        invariant
            i <= n,
            n <= times@.len(),
            n <= vals@.len(),
            series.wf(),
            series@ == zipped(times@, vals@, i as nat),
        decreases n - i,
    {
        series.insert(DataPoint { time: times[i], value: to_bits(vals[i]) });
        i += 1;
    }
    series
}

/// Reads a chunk's bytes as a series.
pub fn raw_decompress(bytes: &[u8]) -> (r: Result<RawSeries, DecompressError>)
    ensures
        reads_as(r, decompressed(bytes@)),
{
    let (times_bytes, vals_bytes) = match split_frame(bytes) {
        Ok(parts) => parts,
        Err(e) => {
            return Err(e);
        },
    };
    let times = match codec_decode(times_bytes) {
        Ok(t) => t,
        Err(e) => {
            return Err(DecompressError::CodecError(e));
        },
    };
    let vals = match codec_decode(vals_bytes) {
        Ok(v) => v,
        Err(e) => {
            return Err(DecompressError::CodecError(e));
        },
    };
    Ok(zip_series(&times, &vals))
}

/// Writes a series as a chunk's bytes: the times and the values, each
/// compressed on its own, then framed. The bytes read back as the series.
pub fn raw_compress(raw: &RawSeries) -> (r: Result<Vec<u8>, CompressError>)
    requires
        raw.wf(),
    ensures
        match r {
            Ok(bytes) => compressed(raw.points()) == Some(bytes@) && decompressed(bytes@) == Ok::<
                _,
                DecompressFault,
            >(raw@),
            Err(e) => compressed(raw.points()) is None,
        },
{
    let n = raw.len();
    let mut timevec: Vec<i64> = Vec::new();
    let mut valvec: Vec<i64> = Vec::new();
    let mut i: usize = 0;
    while i < n
        invariant
            i <= n,
            n == raw.points().len(),
            timevec@ == times_of(raw.points()).subrange(0, i as int),
            valvec@ == values_of(raw.points()).subrange(0, i as int),
        decreases n - i,
    {
        let p = raw.point(i);
        timevec.push(p.time);
        valvec.push(to_signed(p.value));
        i += 1;
        assert(timevec@ =~= times_of(raw.points()).subrange(0, i as int));
        assert(valvec@ =~= values_of(raw.points()).subrange(0, i as int));
    }
    assert(timevec@ =~= times_of(raw.points()));
    assert(valvec@ =~= values_of(raw.points()));
    let compressed_times = match codec_encode(
        &timevec,
        COLUMN_MODE,
        COMPRESSION_LEVEL,
        TIME_DELTA_ORDER,
    ) {
        Ok(t) => t,
        Err(e) => {
            return Err(CompressError::CodecError(e));
        },
    };
    let compressed_vals = match codec_encode(
        &valvec,
        COLUMN_MODE,
        COMPRESSION_LEVEL,
        VALUE_DELTA_ORDER,
    ) {
        Ok(v) => v,
        Err(e) => {
            return Err(CompressError::CodecError(e));
        },
    };
    let res = write_frame(&compressed_times, &compressed_vals);
    proof {
        lemma_chunk_round_trip(raw.points(), compressed_times@, compressed_vals@);
    }
    Ok(res)
}

/// A series in its compressed form.
#[derive(Debug)]
pub struct Chunk {
    pub compressed_data: Vec<u8>,
}

impl View for Chunk {
    type V = Seq<u8>;

    open spec fn view(&self) -> Seq<u8> {
        self.compressed_data@
    }
}

impl Chunk {
    /// Reads the chunk as a series.
    pub fn decompress(&self) -> (r: Result<RawSeries, DecompressError>)
        ensures
            reads_as(r, decompressed(self@)),
    {
        raw_decompress(self.compressed_data.as_slice())
    }

    /// Writes a series as a chunk. The chunk reads back as the series.
    pub fn compress_series(series: &RawSeries) -> (r: Result<Chunk, CompressError>)
        requires
            series.wf(),
        ensures
            match r {
                Ok(chunk) => compressed(series.points()) == Some(chunk@) && decompressed(chunk@)
                    == Ok::<_, DecompressFault>(series@),
                Err(e) => compressed(series.points()) is None,
            },
    {
        match raw_compress(series) {
            Ok(compressed_data) => Ok(Chunk { compressed_data }),
            Err(e) => Err(e),
        }
    }
}

} // verus!
