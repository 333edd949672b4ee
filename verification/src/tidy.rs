//! What holds of an engine even where its catalog has more than one row for
//! a window, as a catalog file of another writer may: every buffer and every
//! row of the catalog is for one window and holds times of that window only.
//! From this follows that a query answers with the points that the buffer of
//! its series holds, and so with every point right after it was inserted.

use vstd::prelude::*;
use crate::chunk::{DecompressFault, decompressed};
use crate::model::{Buffer, KelpieError, accepted, stored_under, live_exactly, buffer_sound, buffers_sound, cleared, eviction_row, insert_outcome, is_eviction_chunk, live_at, live_holds, loads, reads, row_sound, save_failed, save_outcome, saved, stored_map};
use crate::schedule::{ScheduleConfig, lemma_window_facts, lemma_window_of_start};
use crate::series::{DataPoint, within};
use crate::store::{ChunkMeta, lookup_outcome, row_of, without, lemma_without};

verus! {

/// Every row is as an engine writes it.
pub open spec fn rows_tidy(rows: Seq<(i64, i64, i64, Seq<u8>)>, config: ScheduleConfig) -> bool {
    forall|i: int| 0 <= i < rows.len() ==> row_sound(#[trigger] rows[i], config)
}

/// The state of an engine that only this library has written to, whatever
/// it was asked to do.
pub open spec fn tidy(
    buffers: Map<i64, Buffer>,
    rows: Seq<(i64, i64, i64, Seq<u8>)>,
    config: ScheduleConfig,
) -> bool {
    config.wf() && rows_tidy(rows, config) && buffers_sound(buffers, config)
}

/// `answer` has every point of the buffer of the series with a time from
/// `start` up to `stop`.
pub open spec fn answers_buffer(
    buffers: Map<i64, Buffer>,
    series_key: i64,
    start: i64,
    stop: i64,
    answer: Map<i64, u64>,
) -> bool {
    buffers.contains_key(series_key) ==> forall|t: i64|
        #[trigger] buffers[series_key].content.contains_key(t) && start <= t < stop
            ==> answer.contains_key(t) && answer[t] == buffers[series_key].content[t]
}

/// The series holds `value` at `time`: in its buffer, where the buffer's
/// window holds the time; else in a chunk that the catalog has for the
/// window of the time.
pub open spec fn held(
    buffers: Map<i64, Buffer>,
    rows: Seq<(i64, i64, i64, Seq<u8>)>,
    config: ScheduleConfig,
    series_key: i64,
    time: i64,
    value: u64,
) -> bool {
    if live_holds(buffers, series_key, time) {
        buffers[series_key].content.contains_key(time) && buffers[series_key].content[time]
            == value
    } else {
        exists|i: int|
            0 <= i < rows.len() && stored_under(
                #[trigger] rows[i],
                series_key,
                config.schedule_of(time).chunk_start,
            ) && stored_map(rows[i].3).contains_key(time) && stored_map(rows[i].3)[time] == value
    }
}

/// Every point of `answer` is held by the series.
pub open spec fn answer_is_held(
    buffers: Map<i64, Buffer>,
    rows: Seq<(i64, i64, i64, Seq<u8>)>,
    config: ScheduleConfig,
    series_key: i64,
    answer: Map<i64, u64>,
) -> bool {
    forall|t: i64| #[trigger]
        answer.contains_key(t) ==> held(buffers, rows, config, series_key, t, answer[t])
}

/// What was gathered up to `cur` has, for the window of the buffer of the
/// series, what the buffer holds and nothing else, and has all that the
/// buffer holds from `start` up to `cur`.
pub open spec fn gathers_buffer(
    buffers: Map<i64, Buffer>,
    series_key: i64,
    start: i64,
    cur: i64,
    gathered: Map<i64, u64>,
) -> bool {
    buffers.contains_key(series_key) ==> {
        &&& forall|t: i64|
            #[trigger] gathered.contains_key(t) && buffers[series_key].window.holds(t)
                ==> buffers[series_key].content.contains_key(t) && gathered[t]
                == buffers[series_key].content[t]
        &&& forall|t: i64|
            #[trigger] buffers[series_key].content.contains_key(t) && start <= t < cur
                ==> gathered.contains_key(t)
    }
}

/// Where the buffers are sound, a buffer that starts where a window of the
/// configuration starts stands for exactly that window.
pub proof fn lemma_live_window(
    buffers: Map<i64, Buffer>,
    config: ScheduleConfig,
    series_key: i64,
    time: i64,
)
    requires
        config.wf(),
        buffers_sound(buffers, config),
    ensures
        live_at(buffers, series_key, config.schedule_of(time).chunk_start) == live_exactly(
            buffers,
            series_key,
            config.schedule_of(time).chunk_start,
            config.schedule_of(time).chunk_end,
        ),
{
    lemma_window_of_start(config, time);
    if live_at(buffers, series_key, config.schedule_of(time).chunk_start) {
        assert(buffer_sound(buffers[series_key], config));
    }
}

/// In a tidy catalog, the chunk that a lookup finds for a window of the
/// configuration is stored under that window, reads as a series, and holds
/// times of the window only.
pub proof fn lemma_found_in_window(
    rows: Seq<(i64, i64, i64, Seq<u8>)>,
    config: ScheduleConfig,
    series_key: i64,
    time: i64,
    meta: ChunkMeta,
    bytes: Seq<u8>,
)
    requires
        config.wf(),
        rows_tidy(rows, config),
        time < i64::MAX,
        lookup_outcome(
            rows,
            series_key,
            config.schedule_of(time).chunk_start,
            config.schedule_of(time).chunk_end,
            Some((meta, bytes)),
        ),
    ensures
        config.schedule_of(time).chunk_start >= 0,
        meta == (ChunkMeta {
            series_key,
            start: config.schedule_of(time).chunk_start,
            stop: config.schedule_of(time).chunk_end,
        }),
        decompressed(bytes) is Ok,
        forall|t: i64| #[trigger]
            stored_map(bytes).contains_key(t) ==> config.schedule_of(time).holds(t),
{
    let w = config.schedule_of(time);
    lemma_window_facts(config, time);
    lemma_window_of_start(config, time);
    let i = choose|i: int|
        0 <= i < rows.len() && #[trigger] rows[i] == row_of(
            series_key,
            meta.start,
            meta.stop,
            bytes,
        );
    assert(row_sound(rows[i], config));
    assert(config.schedule_of(meta.start).holds(w.chunk_start));
    lemma_window_facts(config, meta.start);
    assert(config.schedule_of(w.chunk_start) == config.schedule_of(meta.start));
}

/// In a tidy catalog, what is read for a window of the configuration holds
/// times of the window only.
pub proof fn lemma_read_in_window(
    rows: Seq<(i64, i64, i64, Seq<u8>)>,
    config: ScheduleConfig,
    series_key: i64,
    time: i64,
    meta: ChunkMeta,
    m: Map<i64, u64>,
)
    requires
        config.wf(),
        rows_tidy(rows, config),
        time < i64::MAX,
        reads(
            rows,
            series_key,
            config.schedule_of(time).chunk_start,
            config.schedule_of(time).chunk_end,
            Ok(Some((meta, m))),
        ),
    ensures
        forall|t: i64| #[trigger] m.contains_key(t) ==> config.schedule_of(time).holds(t) && t >= 0,
        exists|i: int|
            0 <= i < rows.len() && stored_under(
                #[trigger] rows[i],
                series_key,
                config.schedule_of(time).chunk_start,
            ) && stored_map(rows[i].3) == m,
{
    let w = config.schedule_of(time);
    let out: Result<Option<(ChunkMeta, Map<i64, u64>)>, DecompressFault> = Ok(Some((meta, m)));
    let found = choose|found: Option<(ChunkMeta, Seq<u8>)>|
        #[trigger] lookup_outcome(rows, series_key, w.chunk_start, w.chunk_end, found) && out
            == match found {
            Some((meta, bytes)) => match decompressed(bytes) {
                Ok(m) => Ok(Some((meta, m))),
                Err(e) => Err(e),
            },
            None => Ok(None),
        };
    match found {
        Some((found_meta, bytes)) => {
            lemma_found_in_window(rows, config, series_key, time, found_meta, bytes);
            assert(stored_map(bytes) == m);
            let i = choose|i: int|
                0 <= i < rows.len() && #[trigger] rows[i] == row_of(
                    series_key,
                    found_meta.start,
                    found_meta.stop,
                    bytes,
                );
            assert(stored_under(rows[i], series_key, w.chunk_start) && stored_map(rows[i].3) == m);
        },
        None => {},
    }
}

/// In a tidy catalog, no chunk that is read for a window of the
/// configuration is at fault.
pub proof fn lemma_read_without_fault(
    rows: Seq<(i64, i64, i64, Seq<u8>)>,
    config: ScheduleConfig,
    series_key: i64,
    time: i64,
    e: DecompressFault,
)
    requires
        config.wf(),
        rows_tidy(rows, config),
        time < i64::MAX,
    ensures
        !reads(
            rows,
            series_key,
            config.schedule_of(time).chunk_start,
            config.schedule_of(time).chunk_end,
            Err(e),
        ),
{
    let w = config.schedule_of(time);
    let out: Result<Option<(ChunkMeta, Map<i64, u64>)>, DecompressFault> = Err(e);
    if reads(rows, series_key, w.chunk_start, w.chunk_end, out) {
        let found = choose|found: Option<(ChunkMeta, Seq<u8>)>|
            #[trigger] lookup_outcome(rows, series_key, w.chunk_start, w.chunk_end, found) && out
                == match found {
                Some((meta, bytes)) => match decompressed(bytes) {
                    Ok(m) => Ok(Some((meta, m))),
                    Err(e) => Err(e),
                },
                None => Ok(None),
            };
        match found {
            Some((found_meta, bytes)) => {
                lemma_found_in_window(rows, config, series_key, time, found_meta, bytes);
            },
            None => {},
        }
    }
}

/// A query that goes from window to window gathers what the buffer of its
/// series holds: the window of the buffer adds the buffer, and any other
/// window adds times that the buffer's window does not hold.
pub proof fn lemma_gather_buffer_step(
    buffers: Map<i64, Buffer>,
    config: ScheduleConfig,
    series_key: i64,
    start: i64,
    cur: i64,
    gathered: Map<i64, u64>,
    chunk: Map<i64, u64>,
)
    requires
        config.wf(),
        buffers_sound(buffers, config),
        cur < i64::MAX,
        gathers_buffer(buffers, series_key, start, cur, gathered),
        live_at(buffers, series_key, config.schedule_of(cur).chunk_start) ==> chunk
            == buffers[series_key].content,
        !live_at(buffers, series_key, config.schedule_of(cur).chunk_start) ==> forall|t: i64| #[trigger]
            chunk.contains_key(t) ==> config.schedule_of(cur).holds(t) && t >= 0,
    ensures
        gathers_buffer(
            buffers,
            series_key,
            start,
            config.schedule_of(cur).chunk_end,
            gathered.union_prefer_right(chunk),
        ),
{
    let w = config.schedule_of(cur);
    lemma_window_facts(config, cur);
    lemma_window_of_start(config, cur);
    if buffers.contains_key(series_key) {
        let b = buffers[series_key];
        let g = gathered.union_prefer_right(chunk);
        assert(buffer_sound(b, config));
        if b.window.chunk_start < i64::MAX {
            lemma_window_facts(config, b.window.chunk_start);
        }
        if live_at(buffers, series_key, w.chunk_start) {
            assert(b.window == w);
            assert forall|t: i64| #[trigger] b.content.contains_key(t) && start <= t
                < w.chunk_end implies g.contains_key(t) by {}
        } else {
            assert forall|t: i64| 0 <= t && b.window.holds(t) implies !w.holds(t) by {
                if w.holds(t) {
                    assert(config.schedule_of(t) == w);
                    assert(config.schedule_of(t) == b.window);
                }
            }
            assert forall|t: i64| #[trigger] g.contains_key(t) && b.window.holds(t) implies b.content.contains_key(
                t,
            ) && g[t] == b.content[t] by {
                if chunk.contains_key(t) {
                    assert(w.holds(t) && t >= 0);
                }
            }
            assert forall|t: i64| #[trigger] b.content.contains_key(t) && start <= t
                < w.chunk_end implies g.contains_key(t) by {
                assert(b.window.holds(t));
                if cur <= t {
                    assert(w.holds(t));
                }
            }
        }
    }
}

/// A query that goes from window to window gathers what the series holds
/// and nothing else: the window of the buffer adds points of the buffer, and
/// any other window adds points of a chunk that the catalog has for it.
pub proof fn lemma_gather_held_step(
    buffers: Map<i64, Buffer>,
    rows: Seq<(i64, i64, i64, Seq<u8>)>,
    config: ScheduleConfig,
    series_key: i64,
    cur: i64,
    gathered: Map<i64, u64>,
    chunk: Map<i64, u64>,
)
    requires
        config.wf(),
        buffers_sound(buffers, config),
        cur < i64::MAX,
        answer_is_held(buffers, rows, config, series_key, gathered),
        live_at(buffers, series_key, config.schedule_of(cur).chunk_start) ==> chunk
            == buffers[series_key].content,
        !live_at(buffers, series_key, config.schedule_of(cur).chunk_start) ==> {
            &&& forall|t: i64| #[trigger]
                chunk.contains_key(t) ==> config.schedule_of(cur).holds(t) && t >= 0
            &&& chunk == Map::<i64, u64>::empty() || exists|i: int|
                0 <= i < rows.len() && stored_under(
                    #[trigger] rows[i],
                    series_key,
                    config.schedule_of(cur).chunk_start,
                ) && stored_map(rows[i].3) == chunk
        },
    ensures
        answer_is_held(buffers, rows, config, series_key, gathered.union_prefer_right(chunk)),
{
    let w = config.schedule_of(cur);
    let g = gathered.union_prefer_right(chunk);
    lemma_window_facts(config, cur);
    lemma_window_of_start(config, cur);
    assert forall|t: i64| #[trigger] g.contains_key(t) implies held(
        buffers,
        rows,
        config,
        series_key,
        t,
        g[t],
    ) by {
        if chunk.contains_key(t) {
            if live_at(buffers, series_key, w.chunk_start) {
                let b = buffers[series_key];
                assert(buffer_sound(b, config));
                assert(b.window.holds(t));
            } else {
                assert(w.holds(t) && t >= 0);
                assert(config.schedule_of(t) == w);
                if buffers.contains_key(series_key) {
                    let b = buffers[series_key];
                    assert(buffer_sound(b, config));
                    if b.window.holds(t) {
                        lemma_window_facts(config, b.window.chunk_start);
                        assert(config.schedule_of(t) == b.window);
                    }
                }
                let i = choose|i: int|
                    0 <= i < rows.len() && stored_under(
                        #[trigger] rows[i],
                        series_key,
                        w.chunk_start,
                    ) && stored_map(rows[i].3) == chunk;
                assert(stored_under(rows[i], series_key, config.schedule_of(t).chunk_start));
            }
        } else {
            assert(gathered.contains_key(t));
        }
    }
}

/// What was gathered up to the end of a range answers, within the range,
/// with what the buffer holds there.
pub proof fn lemma_gathered_buffer(
    buffers: Map<i64, Buffer>,
    config: ScheduleConfig,
    series_key: i64,
    start: i64,
    stop: i64,
    cur: i64,
    gathered: Map<i64, u64>,
)
    requires
        buffers_sound(buffers, config),
        gathers_buffer(buffers, series_key, start, cur, gathered),
        stop <= cur,
    ensures
        answers_buffer(buffers, series_key, start, stop, within(gathered, start, stop)),
{
    if buffers.contains_key(series_key) {
        let b = buffers[series_key];
        assert(buffer_sound(b, config));
        assert forall|t: i64| #[trigger] b.content.contains_key(t) && start <= t < stop implies within(
            gathered,
            start,
            stop,
        ).contains_key(t) && within(gathered, start, stop)[t] == b.content[t] by {
            assert(b.window.holds(t));
            assert(gathered.contains_key(t));
        }
    }
}

/// Without the rows of one window, a tidy catalog is tidy.
pub proof fn lemma_without_keeps_tidy(
    rows: Seq<(i64, i64, i64, Seq<u8>)>,
    config: ScheduleConfig,
    series_key: i64,
    start: i64,
    stop: i64,
)
    requires
        rows_tidy(rows, config),
    ensures
        rows_tidy(without(rows, series_key, start, stop), config),
{
    let base = without(rows, series_key, start, stop);
    lemma_without(rows, series_key, start, stop);
    assert forall|j: int| 0 <= j < base.len() implies row_sound(#[trigger] base[j], config) by {
        assert(rows.contains(base[j]));
        let i = choose|i: int| 0 <= i < rows.len() && rows[i] == base[j];
        assert(row_sound(rows[i], config));
    }
}

/// With the chunk of one of its buffers added, a tidy catalog is tidy.
pub proof fn lemma_push_keeps_tidy(
    buffers: Map<i64, Buffer>,
    rows: Seq<(i64, i64, i64, Seq<u8>)>,
    config: ScheduleConfig,
    series_key: i64,
    bytes: Seq<u8>,
)
    requires
        tidy(buffers, rows, config),
        buffers.contains_key(series_key),
        decompressed(bytes) == Ok::<_, DecompressFault>(buffers[series_key].content),
    ensures
        rows_tidy(rows.push(eviction_row(buffers, series_key, bytes)), config),
{
    let row = eviction_row(buffers, series_key, bytes);
    let after = rows.push(row);
    assert(buffer_sound(buffers[series_key], config));
    assert(row_sound(row, config));
    assert forall|i: int| 0 <= i < after.len() implies row_sound(#[trigger] after[i], config) by {
        if i < rows.len() {
            assert(after[i] == rows[i]);
        }
    }
}

/// Putting a buffer away leaves a tidy state tidy, however it ends.
pub proof fn lemma_save_keeps_tidy(
    buffers: Map<i64, Buffer>,
    rows: Seq<(i64, i64, i64, Seq<u8>)>,
    buffers_after: Map<i64, Buffer>,
    rows_after: Seq<(i64, i64, i64, Seq<u8>)>,
    config: ScheduleConfig,
    series_key: i64,
    r: Result<(), KelpieError>,
)
    requires
        tidy(buffers, rows, config),
        save_outcome(buffers, rows, buffers_after, rows_after, series_key, r),
    ensures
        tidy(buffers_after, rows_after, config),
{
    if buffers.contains_key(series_key) {
        match r {
            Ok(()) => {
                lemma_saved_keeps_tidy(buffers, rows, rows_after, config, series_key);
            },
            Err(KelpieError::SetChunk(e)) => {
                let bytes = choose|bytes: Seq<u8>| #[trigger]
                    is_eviction_chunk(buffers, series_key, bytes) && save_failed(
                        buffers,
                        rows,
                        rows_after,
                        series_key,
                        bytes,
                    );
                lemma_without_keeps_tidy(
                    rows,
                    config,
                    series_key,
                    buffers[series_key].window.chunk_start,
                    buffers[series_key].window.chunk_end,
                );
                lemma_push_keeps_tidy(
                    buffers,
                    cleared(buffers, rows, series_key),
                    config,
                    series_key,
                    bytes,
                );
            },
            _ => {},
        }
    }
}

/// Once a buffer was put into the catalog, the state without it is tidy.
pub proof fn lemma_saved_keeps_tidy(
    buffers: Map<i64, Buffer>,
    rows: Seq<(i64, i64, i64, Seq<u8>)>,
    rows_after: Seq<(i64, i64, i64, Seq<u8>)>,
    config: ScheduleConfig,
    series_key: i64,
)
    requires
        tidy(buffers, rows, config),
        saved(buffers, rows, rows_after, series_key),
    ensures
        tidy(buffers.remove(series_key), rows_after, config),
{
    let gone = buffers.remove(series_key);
    assert forall|k: i64| gone.contains_key(k) implies buffer_sound(#[trigger] gone[k], config) by {
        assert(gone[k] == buffers[k]);
    }
    if buffers.contains_key(series_key) {
        let bytes = choose|bytes: Seq<u8>| #[trigger]
            is_eviction_chunk(buffers, series_key, bytes) && rows_after == cleared(
                buffers,
                rows,
                series_key,
            ).push(eviction_row(buffers, series_key, bytes));
        lemma_without_keeps_tidy(
            rows,
            config,
            series_key,
            buffers[series_key].window.chunk_start,
            buffers[series_key].window.chunk_end,
        );
        lemma_push_keeps_tidy(
            buffers,
            cleared(buffers, rows, series_key),
            config,
            series_key,
            bytes,
        );
    }
}

/// The law of tidiness. An insert leaves a tidy state tidy, whatever the
/// point and however the insert ends; and where it succeeds with a point
/// that is accepted, the buffer of the series holds the point.
pub proof fn lemma_insert_keeps_tidy(
    buffers: Map<i64, Buffer>,
    rows: Seq<(i64, i64, i64, Seq<u8>)>,
    buffers_after: Map<i64, Buffer>,
    rows_after: Seq<(i64, i64, i64, Seq<u8>)>,
    config: ScheduleConfig,
    series_key: i64,
    point: DataPoint,
    r: Result<(), KelpieError>,
)
    requires
        tidy(buffers, rows, config),
        insert_outcome(buffers, rows, buffers_after, rows_after, config, series_key, point, r),
    ensures
        tidy(buffers_after, rows_after, config),
        accepted(point) && r is Ok ==> live_holds(buffers_after, series_key, point.time)
            && buffers_after[series_key].content.contains_key(point.time)
            && buffers_after[series_key].content[point.time] == point.value,
{
    if !accepted(point) {
    } else if live_holds(buffers, series_key, point.time) {
        let b = buffers[series_key];
        assert(buffer_sound(b, config));
        let fresh = Buffer { window: b.window, content: b.content.insert(point.time, point.value) };
        assert(buffer_sound(fresh, config));
        assert forall|k: i64| buffers_after.contains_key(k) implies buffer_sound(
            #[trigger] buffers_after[k],
            config,
        ) by {
            if k != series_key {
                assert(buffers_after[k] == buffers[k]);
            }
        }
    } else {
        let window = config.schedule_of(point.time);
        lemma_window_facts(config, point.time);
        lemma_window_of_start(config, point.time);
        match r {
            Ok(()) => {
                lemma_saved_keeps_tidy(buffers, rows, rows_after, config, series_key);
                let loaded = choose|loaded: Map<i64, u64>|
                    #[trigger] loads(rows_after, series_key, window, Ok(loaded)) && buffers_after
                        == buffers.insert(
                        series_key,
                        Buffer { window, content: loaded.insert(point.time, point.value) },
                    );
                let found = choose|found: Option<(ChunkMeta, Seq<u8>)>|
                    #[trigger] lookup_outcome(
                        rows_after,
                        series_key,
                        window.chunk_start,
                        window.chunk_end,
                        found,
                    ) && Ok::<_, DecompressFault>(loaded) == match found {
                        Some((_, bytes)) => decompressed(bytes),
                        None => Ok(Map::empty()),
                    };
                match found {
                    Some((meta, bytes)) => {
                        lemma_found_in_window(
                            rows_after,
                            config,
                            series_key,
                            point.time,
                            meta,
                            bytes,
                        );
                        assert(stored_map(bytes) == loaded);
                    },
                    None => {},
                }
                let fresh = Buffer { window, content: loaded.insert(point.time, point.value) };
                assert(buffer_sound(fresh, config));
                assert forall|k: i64| buffers_after.contains_key(k) implies buffer_sound(
                    #[trigger] buffers_after[k],
                    config,
                ) by {
                    if k != series_key {
                        assert(buffers_after[k] == buffers[k]);
                    }
                }
            },
            Err(KelpieError::GetChunk(_)) => {
                lemma_saved_keeps_tidy(buffers, rows, rows_after, config, series_key);
            },
            Err(KelpieError::Decompress(_)) => {
                lemma_saved_keeps_tidy(buffers, rows, rows_after, config, series_key);
            },
            Err(_) => {
                lemma_save_keeps_tidy(
                    buffers,
                    rows,
                    buffers_after,
                    rows_after,
                    config,
                    series_key,
                    r,
                );
            },
        }
    }
}

/// A point is answered right after it was inserted. In a tidy state, after
/// an insert that succeeded with an accepted point, an answer that has what
/// the buffer of the series holds within a range has the point with its
/// value, where the range holds the point's time: whatever was inserted
/// before, at this time or any other.
pub proof fn lemma_inserted_point_is_answered(
    buffers: Map<i64, Buffer>,
    rows: Seq<(i64, i64, i64, Seq<u8>)>,
    buffers_after: Map<i64, Buffer>,
    rows_after: Seq<(i64, i64, i64, Seq<u8>)>,
    config: ScheduleConfig,
    series_key: i64,
    point: DataPoint,
    start: i64,
    stop: i64,
    answer: Map<i64, u64>,
)
    requires
        tidy(buffers, rows, config),
        accepted(point),
        insert_outcome(
            buffers,
            rows,
            buffers_after,
            rows_after,
            config,
            series_key,
            point,
            Ok(()),
        ),
        answers_buffer(buffers_after, series_key, start, stop, answer),
        start <= point.time < stop,
    ensures
        answer.contains_key(point.time),
        answer[point.time] == point.value,
{
    lemma_insert_keeps_tidy(
        buffers,
        rows,
        buffers_after,
        rows_after,
        config,
        series_key,
        point,
        Ok(()),
    );
}

} // verus!
