//! What an engine holds, as mathematics: the buffers of its series, the rows
//! of its catalog, and the mapping from time to value that the two make for
//! each series; and what each operation of the engine does to them.

use vstd::prelude::*;
use crate::chunk::{DecompressError, DecompressFault, compressed, decompressed};
use crate::schedule::{Schedule, ScheduleConfig};
use crate::series::{DataPoint, is_nan_bits, points_of};
use crate::store::{ChunkMeta, SetChunkError, MAX_CHUNK_LEN, lookup_outcome, row_of, without};

verus! {

/// Why an insert or a query could not be carried out.
#[derive(Debug)]
pub enum KelpieError {
    /// The catalog could not be read.
    GetChunk(crate::store::GetChunkError),
    /// The catalog could not be written.
    SetChunk(SetChunkError),
    /// A chunk from the catalog could not be read as a series.
    Decompress(DecompressError),
    /// A buffer could not be written as a chunk.
    Compress(crate::chunk::CompressError),
}

/// The buffer of a series: the window it stands for and what it holds.
pub struct Buffer {
    pub window: Schedule,
    pub content: Map<i64, u64>,
}

/// An engine takes a point in when its value is no NaN and its time lies from
/// zero up to, and not at, the largest time.
pub open spec fn accepted(point: DataPoint) -> bool {
    !is_nan_bits(point.value) && 0 <= point.time < i64::MAX
}

/// The series has a buffer, and it stands for the window that starts at
/// `start`.
pub open spec fn live_at(buffers: Map<i64, Buffer>, series_key: i64, start: i64) -> bool {
    buffers.contains_key(series_key) && buffers[series_key].window.chunk_start == start
}

/// The series has a buffer, and it stands for exactly the window from
/// `start` to `stop`.
pub open spec fn live_exactly(buffers: Map<i64, Buffer>, series_key: i64, start: i64, stop: i64) -> bool {
    buffers.contains_key(series_key) && buffers[series_key].window == (Schedule {
        chunk_start: start,
        chunk_end: stop,
    })
}

/// The series has a buffer, and its window holds `time`.
pub open spec fn live_holds(buffers: Map<i64, Buffer>, series_key: i64, time: i64) -> bool {
    buffers.contains_key(series_key) && buffers[series_key].window.holds(time)
}

/// The row is a chunk of the series for the window that starts at `start`.
pub open spec fn stored_under(row: (i64, i64, i64, Seq<u8>), series_key: i64, start: i64) -> bool {
    row.0 == series_key && row.1 == start
}

/// The catalog has a chunk of the series for the window that starts at
/// `start`.
pub open spec fn is_stored(rows: Seq<(i64, i64, i64, Seq<u8>)>, series_key: i64, start: i64) -> bool {
    exists|i: int| 0 <= i < rows.len() && stored_under(#[trigger] rows[i], series_key, start)
}

/// Where the catalog has a chunk of the series for the window that starts at
/// `start`.
pub open spec fn stored_index(rows: Seq<(i64, i64, i64, Seq<u8>)>, series_key: i64, start: i64) -> int {
    choose|i: int| 0 <= i < rows.len() && stored_under(#[trigger] rows[i], series_key, start)
}

/// The mapping that a chunk's bytes hold; the empty one where they hold none.
pub open spec fn stored_map(bytes: Seq<u8>) -> Map<i64, u64> {
    match decompressed(bytes) {
        Ok(m) => m,
        Err(_) => Map::empty(),
    }
}

/// What a series holds for the window that starts at `start`: its buffer
/// where that stands for the window, else the chunk that the catalog has
/// for it, else nothing.
pub open spec fn window_map(
    buffers: Map<i64, Buffer>,
    rows: Seq<(i64, i64, i64, Seq<u8>)>,
    series_key: i64,
    start: i64,
) -> Map<i64, u64> {
    if live_at(buffers, series_key, start) {
        buffers[series_key].content
    } else if is_stored(rows, series_key, start) {
        stored_map(rows[stored_index(rows, series_key, start)].3)
    } else {
        Map::empty()
    }
}

/// What a series holds: at each time from zero on, what it holds for the
/// window of that time.
pub open spec fn content_of(
    buffers: Map<i64, Buffer>,
    rows: Seq<(i64, i64, i64, Seq<u8>)>,
    config: ScheduleConfig,
    series_key: i64,
) -> Map<i64, u64> {
    Map::new(
        |t: i64|
            t >= 0 && window_map(
                buffers,
                rows,
                series_key,
                config.schedule_of(t).chunk_start,
            ).contains_key(t),
        |t: i64| window_map(buffers, rows, series_key, config.schedule_of(t).chunk_start)[t],
    )
}

/// A row as an engine writes it: for a window of the configuration that
/// starts from zero on, with bytes that read as a series within the window.
pub open spec fn row_sound(row: (i64, i64, i64, Seq<u8>), config: ScheduleConfig) -> bool {
    &&& row.1 >= 0
    &&& config.schedule_of(row.1) == Schedule { chunk_start: row.1, chunk_end: row.2 }
    &&& decompressed(row.3) is Ok
    &&& forall|t: i64| #[trigger] stored_map(row.3).contains_key(t) ==> row.1 <= t < row.2
}

/// No two rows are for the same series and start.
pub open spec fn apart(rows: Seq<(i64, i64, i64, Seq<u8>)>) -> bool {
    forall|i: int, j: int|
        0 <= i < j < rows.len() ==> !((#[trigger] rows[i]).0 == (#[trigger] rows[j]).0 && rows[i].1
            == rows[j].1)
}

/// Every row is as an engine writes it, and no two are for the same window
/// of the same series.
pub open spec fn catalog_sound(rows: Seq<(i64, i64, i64, Seq<u8>)>, config: ScheduleConfig) -> bool {
    &&& forall|i: int| 0 <= i < rows.len() ==> row_sound(#[trigger] rows[i], config)
    &&& apart(rows)
}

/// A buffer stands for a window of the configuration that starts from zero
/// on, and holds times of that window only.
pub open spec fn buffer_sound(buffer: Buffer, config: ScheduleConfig) -> bool {
    &&& buffer.window.chunk_start >= 0
    &&& config.schedule_of(buffer.window.chunk_start) == buffer.window
    &&& forall|t: i64| #[trigger] buffer.content.contains_key(t) ==> buffer.window.holds(t)
}

/// Every buffer is sound.
pub open spec fn buffers_sound(buffers: Map<i64, Buffer>, config: ScheduleConfig) -> bool {
    forall|k: i64| buffers.contains_key(k) ==> buffer_sound(#[trigger] buffers[k], config)
}

/// The state of an engine that only this library has written to: every
/// buffer and every row is for one window and holds times of that window
/// only, and no two rows are for the same window of the same series.
pub open spec fn sound(
    buffers: Map<i64, Buffer>,
    rows: Seq<(i64, i64, i64, Seq<u8>)>,
    config: ScheduleConfig,
) -> bool {
    config.wf() && catalog_sound(rows, config) && buffers_sound(buffers, config)
}

/// The chunk bytes that a buffer's content is written as.
pub open spec fn eviction_chunk(content: Map<i64, u64>) -> Option<Seq<u8>> {
    compressed(points_of(content))
}

/// The row that the buffer of a series makes in the catalog, with `bytes` for
/// its chunk.
pub open spec fn eviction_row(buffers: Map<i64, Buffer>, series_key: i64, bytes: Seq<u8>) -> (
    i64,
    i64,
    i64,
    Seq<u8>,
) {
    row_of(
        series_key,
        buffers[series_key].window.chunk_start,
        buffers[series_key].window.chunk_end,
        bytes,
    )
}

/// The rows of the catalog without those for the window of the buffer of a
/// series.
pub open spec fn cleared(
    buffers: Map<i64, Buffer>,
    rows: Seq<(i64, i64, i64, Seq<u8>)>,
    series_key: i64,
) -> Seq<(i64, i64, i64, Seq<u8>)> {
    without(
        rows,
        series_key,
        buffers[series_key].window.chunk_start,
        buffers[series_key].window.chunk_end,
    )
}

/// `bytes` is the chunk that the buffer of the series is written as, and it
/// reads back as what the buffer holds.
pub open spec fn is_eviction_chunk(buffers: Map<i64, Buffer>, series_key: i64, bytes: Seq<u8>) -> bool {
    eviction_chunk(buffers[series_key].content) == Some(bytes) && decompressed(bytes) == Ok::<
        _,
        DecompressFault,
    >(buffers[series_key].content)
}

/// What the catalog holds once the buffer of a series, if it has one, was
/// put into it: in place of the rows that it had for the buffer's window,
/// one row, whose chunk reads back as the buffer.
pub open spec fn saved(
    buffers: Map<i64, Buffer>,
    rows: Seq<(i64, i64, i64, Seq<u8>)>,
    rows_after: Seq<(i64, i64, i64, Seq<u8>)>,
    series_key: i64,
) -> bool {
    if buffers.contains_key(series_key) {
        exists|bytes: Seq<u8>| #[trigger]
            is_eviction_chunk(buffers, series_key, bytes) && rows_after == cleared(
                buffers,
                rows,
                series_key,
            ).push(eviction_row(buffers, series_key, bytes))
    } else {
        rows_after == rows
    }
}

/// What the catalog may hold after the buffer of a series could not be put
/// into it: what it held; that without the rows for the buffer's window;
/// or that with the row that was to be added.
pub open spec fn save_failed(
    buffers: Map<i64, Buffer>,
    rows: Seq<(i64, i64, i64, Seq<u8>)>,
    rows_after: Seq<(i64, i64, i64, Seq<u8>)>,
    series_key: i64,
    bytes: Seq<u8>,
) -> bool {
    ||| rows_after == rows
    ||| rows_after == cleared(buffers, rows, series_key)
    ||| rows_after == cleared(buffers, rows, series_key).push(
        eviction_row(buffers, series_key, bytes),
    )
}

/// What putting the buffer of a series into the catalog does, and when it
/// succeeds. Without a buffer nothing happens, and that cannot fail. With
/// one, success leaves the series without a buffer and the catalog with the
/// buffer's chunk as the one row for the buffer's window. A buffer that the
/// codec cannot write stays, and nothing has changed. A buffer whose chunk
/// has more bytes than the catalog takes stays, and nothing has changed.
/// A buffer that the catalog's database fails on stays, and the catalog is
/// then in one of the states that the work goes through.
pub open spec fn save_outcome(
    buffers: Map<i64, Buffer>,
    rows: Seq<(i64, i64, i64, Seq<u8>)>,
    buffers_after: Map<i64, Buffer>,
    rows_after: Seq<(i64, i64, i64, Seq<u8>)>,
    series_key: i64,
    r: Result<(), KelpieError>,
) -> bool {
    if !buffers.contains_key(series_key) {
        r is Ok && buffers_after == buffers && rows_after == rows
    } else {
        match r {
            Ok(()) => saved(buffers, rows, rows_after, series_key) && buffers_after
                == buffers.remove(series_key),
            Err(KelpieError::Compress(_)) => {
                &&& eviction_chunk(buffers[series_key].content) is None
                &&& buffers_after == buffers
                &&& rows_after == rows
            },
            Err(KelpieError::SetChunk(e)) => {
                &&& buffers_after == buffers
                &&& exists|bytes: Seq<u8>| #[trigger]
                    is_eviction_chunk(buffers, series_key, bytes) && save_failed(
                        buffers,
                        rows,
                        rows_after,
                        series_key,
                        bytes,
                    ) && (e is ChunkTooLarge <==> bytes.len() > MAX_CHUNK_LEN)
                &&& e is ChunkTooLarge ==> rows_after == rows
            },
            Err(_) => false,
        }
    }
}

/// What reading the chunk of a window from the catalog may give: the chunk
/// that a lookup finds, read as a mapping, with what it is stored under;
/// nothing where the lookup finds none; or the fault of the chunk's bytes.
pub open spec fn reads(
    rows: Seq<(i64, i64, i64, Seq<u8>)>,
    series_key: i64,
    start: i64,
    stop: i64,
    out: Result<Option<(ChunkMeta, Map<i64, u64>)>, DecompressFault>,
) -> bool {
    exists|found: Option<(ChunkMeta, Seq<u8>)>|
        #[trigger] lookup_outcome(rows, series_key, start, stop, found) && out == match found {
            Some((meta, bytes)) => match decompressed(bytes) {
                Ok(m) => Ok(Some((meta, m))),
                Err(e) => Err(e),
            },
            None => Ok(None),
        }
}

/// What loading the buffer of a window from the catalog may give: the
/// mapping of the chunk that a lookup finds, the empty mapping where it
/// finds none, or the fault of the chunk's bytes.
pub open spec fn loads(
    rows: Seq<(i64, i64, i64, Seq<u8>)>,
    series_key: i64,
    window: Schedule,
    out: Result<Map<i64, u64>, DecompressFault>,
) -> bool {
    exists|found: Option<(ChunkMeta, Seq<u8>)>|
        #[trigger] lookup_outcome(rows, series_key, window.chunk_start, window.chunk_end, found)
            && out == match found {
            Some((_, bytes)) => decompressed(bytes),
            None => Ok(Map::empty()),
        }
}

/// What giving a series the buffer of a window does, and when it succeeds:
/// the buffer that the series has, if any, is put into the catalog first,
/// in place of what the catalog has for the buffer's window, then the chunk
/// of the window is read from the catalog as the new buffer.
/// Where the old buffer cannot be put away nothing else happens; where the
/// chunk cannot be looked up or read, the series is left without a buffer.
pub open spec fn load_outcome(
    buffers: Map<i64, Buffer>,
    rows: Seq<(i64, i64, i64, Seq<u8>)>,
    buffers_after: Map<i64, Buffer>,
    rows_after: Seq<(i64, i64, i64, Seq<u8>)>,
    series_key: i64,
    window: Schedule,
    r: Result<(), KelpieError>,
) -> bool {
    match r {
        Ok(()) => {
            &&& saved(buffers, rows, rows_after, series_key)
            &&& exists|loaded: Map<i64, u64>|
                #[trigger] loads(rows_after, series_key, window, Ok(loaded)) && buffers_after
                    == buffers.insert(series_key, Buffer { window, content: loaded })
        },
        Err(KelpieError::GetChunk(_)) => {
            &&& saved(buffers, rows, rows_after, series_key)
            &&& buffers_after == buffers.remove(series_key)
        },
        Err(KelpieError::Decompress(e)) => {
            &&& saved(buffers, rows, rows_after, series_key)
            &&& buffers_after == buffers.remove(series_key)
            &&& loads(rows_after, series_key, window, Err(e.fault()))
        },
        Err(_) => buffers.contains_key(series_key) && save_outcome(
            buffers,
            rows,
            buffers_after,
            rows_after,
            series_key,
            r,
        ),
    }
}

/// What an insert does to the buffers and the catalog, and when it succeeds.
///
/// A point that is not accepted changes nothing. A point whose time the
/// buffer of its series holds goes into that buffer. Neither can fail. Any
/// other point has its series given the buffer of the point's window, and
/// goes into that; where the series cannot be given that buffer, the point
/// is not taken in.
pub open spec fn insert_outcome(
    buffers: Map<i64, Buffer>,
    rows: Seq<(i64, i64, i64, Seq<u8>)>,
    buffers_after: Map<i64, Buffer>,
    rows_after: Seq<(i64, i64, i64, Seq<u8>)>,
    config: ScheduleConfig,
    series_key: i64,
    point: DataPoint,
    r: Result<(), KelpieError>,
) -> bool {
    if !accepted(point) {
        r is Ok && buffers_after == buffers && rows_after == rows
    } else if live_holds(buffers, series_key, point.time) {
        &&& r is Ok
        &&& rows_after == rows
        &&& buffers_after == buffers.insert(
            series_key,
            Buffer {
                window: buffers[series_key].window,
                content: buffers[series_key].content.insert(point.time, point.value),
            },
        )
    } else {
        let window = config.schedule_of(point.time);
        match r {
            Ok(()) => {
                &&& saved(buffers, rows, rows_after, series_key)
                &&& exists|loaded: Map<i64, u64>|
                    #[trigger] loads(rows_after, series_key, window, Ok(loaded)) && buffers_after
                        == buffers.insert(
                        series_key,
                        Buffer { window, content: loaded.insert(point.time, point.value) },
                    )
            },
            Err(_) => load_outcome(buffers, rows, buffers_after, rows_after, series_key, window, r),
        }
    }
}

/// What a series holds once a point of the series `series_key` was taken
/// in: the point too where the series is that one and the point is accepted,
/// else what it held.
pub open spec fn taken_in(
    before: Map<i64, u64>,
    series_key: i64,
    other: i64,
    point: DataPoint,
) -> Map<i64, u64> {
    if other == series_key && accepted(point) {
        before.insert(point.time, point.value)
    } else {
        before
    }
}

/// What a series holds after an insert that ended as `r`: what it holds with
/// the point taken in where the insert succeeded, else what it held.
pub open spec fn content_after_insert(
    before: Map<i64, u64>,
    series_key: i64,
    other: i64,
    point: DataPoint,
    r: Result<(), KelpieError>,
) -> Map<i64, u64> {
    if r is Ok {
        taken_in(before, series_key, other, point)
    } else {
        before
    }
}

/// The series holds `value` at `time` somewhere: in its buffer, or in a
/// chunk of its rows in the catalog.
pub open spec fn drawn(
    buffers: Map<i64, Buffer>,
    rows: Seq<(i64, i64, i64, Seq<u8>)>,
    series_key: i64,
    time: i64,
    value: u64,
) -> bool {
    ||| buffers.contains_key(series_key) && buffers[series_key].content.contains_key(time)
        && buffers[series_key].content[time] == value
    ||| exists|i: int|
        0 <= i < rows.len() && (#[trigger] rows[i]).0 == series_key && stored_map(
            rows[i].3,
        ).contains_key(time) && stored_map(rows[i].3)[time] == value
}

/// Every point of `answer` is held somewhere by the series.
pub open spec fn answer_is_drawn(
    buffers: Map<i64, Buffer>,
    rows: Seq<(i64, i64, i64, Seq<u8>)>,
    series_key: i64,
    answer: Map<i64, u64>,
) -> bool {
    forall|t: i64| #[trigger] answer.contains_key(t) ==> drawn(buffers, rows, series_key, t, answer[t])
}

/// What is read from the catalog for a series is what a chunk of one of the
/// rows of the series holds.
pub proof fn lemma_read_is_drawn(
    rows: Seq<(i64, i64, i64, Seq<u8>)>,
    series_key: i64,
    start: i64,
    stop: i64,
    meta: ChunkMeta,
    m: Map<i64, u64>,
)
    requires
        reads(rows, series_key, start, stop, Ok(Some((meta, m)))),
    ensures
        exists|i: int|
            0 <= i < rows.len() && (#[trigger] rows[i]).0 == series_key && stored_map(rows[i].3) == m,
{
    let out: Result<Option<(ChunkMeta, Map<i64, u64>)>, DecompressFault> = Ok(Some((meta, m)));
    let found = choose|found: Option<(ChunkMeta, Seq<u8>)>|
        #[trigger] lookup_outcome(rows, series_key, start, stop, found) && out == match found {
            Some((meta, bytes)) => match decompressed(bytes) {
                Ok(m) => Ok(Some((meta, m))),
                Err(e) => Err(e),
            },
            None => Ok(None),
        };
    match found {
        Some((found_meta, bytes)) => {
            let i = choose|i: int|
                0 <= i < rows.len() && #[trigger] rows[i] == row_of(
                    series_key,
                    found_meta.start,
                    found_meta.stop,
                    bytes,
                );
            assert(rows[i].0 == series_key && stored_map(rows[i].3) == m);
        },
        None => {},
    }
}

/// A query gathers nothing but what its series holds somewhere: each window
/// adds points of the buffer or of a chunk of the series.
pub proof fn lemma_gather_drawn_step(
    buffers: Map<i64, Buffer>,
    rows: Seq<(i64, i64, i64, Seq<u8>)>,
    series_key: i64,
    gathered: Map<i64, u64>,
    chunk: Map<i64, u64>,
)
    requires
        answer_is_drawn(buffers, rows, series_key, gathered),
        ({
            ||| buffers.contains_key(series_key) && chunk == buffers[series_key].content
            ||| exists|i: int|
                0 <= i < rows.len() && (#[trigger] rows[i]).0 == series_key && stored_map(
                    rows[i].3,
                ) == chunk
        }),
    ensures
        answer_is_drawn(buffers, rows, series_key, gathered.union_prefer_right(chunk)),
{
    let g = gathered.union_prefer_right(chunk);
    assert forall|t: i64| #[trigger] g.contains_key(t) implies drawn(
        buffers,
        rows,
        series_key,
        t,
        g[t],
    ) by {
        if chunk.contains_key(t) {
            if !(buffers.contains_key(series_key) && chunk == buffers[series_key].content) {
                let i = choose|i: int|
                    0 <= i < rows.len() && (#[trigger] rows[i]).0 == series_key && stored_map(
                        rows[i].3,
                    ) == chunk;
                assert(rows[i].0 == series_key && stored_map(rows[i].3).contains_key(t));
            }
        } else {
            assert(gathered.contains_key(t));
        }
    }
}

} // verus!
