//! The laws of a sound engine: what it holds of a series is one mapping,
//! an insert adds its point to that mapping and changes nothing else, the
//! catalog never has two rows for one window of a series, and a query
//! answers with the part of the mapping that its range holds.

use vstd::prelude::*;
use crate::chunk::{DecompressFault, decompressed};
use crate::model::{Buffer, KelpieError, accepted, apart, buffer_sound, catalog_sound, cleared, content_after_insert, content_of, eviction_row, insert_outcome, is_eviction_chunk, is_stored, live_at, live_holds, loads, row_sound, save_failed, save_outcome, saved, sound, stored_index, stored_map, stored_under, window_map};
use vstd::arithmetic::div_mod::lemma_fundamental_div_mod;
use crate::schedule::{ScheduleConfig, lemma_start_bounds, lemma_window_facts, lemma_window_of_start};
use crate::series::{DataPoint, within};
use crate::store::{ChunkMeta, covers, keyed, lookup_outcome, row_of, without, lemma_without};

verus! {

/// In a sound catalog a chunk is found under its series and start at one
/// place only.
pub proof fn lemma_stored_once(
    rows: Seq<(i64, i64, i64, Seq<u8>)>,
    config: ScheduleConfig,
    series_key: i64,
    start: i64,
    i: int,
)
    requires
        catalog_sound(rows, config),
        0 <= i < rows.len(),
        stored_under(rows[i], series_key, start),
    ensures
        is_stored(rows, series_key, start),
        stored_index(rows, series_key, start) == i,
{
    let j = stored_index(rows, series_key, start);
    assert(stored_under(rows[j], series_key, start));
    if i < j {
        assert(!(rows[i].0 == rows[j].0 && rows[i].1 == rows[j].1));
    }
    if j < i {
        assert(!(rows[j].0 == rows[i].0 && rows[j].1 == rows[i].1));
    }
}

/// In a sound catalog a lookup for a window of the configuration finds the
/// one chunk stored under that window, or none where none is stored.
pub proof fn lemma_lookup_is_determined(
    rows: Seq<(i64, i64, i64, Seq<u8>)>,
    config: ScheduleConfig,
    series_key: i64,
    time: i64,
    found: Option<(ChunkMeta, Seq<u8>)>,
)
    requires
        config.wf(),
        catalog_sound(rows, config),
        time < i64::MAX,
        lookup_outcome(
            rows,
            series_key,
            config.schedule_of(time).chunk_start,
            config.schedule_of(time).chunk_end,
            found,
        ),
    ensures
        found is Some <==> is_stored(rows, series_key, config.schedule_of(time).chunk_start),
        found matches Some((meta, bytes)) ==> {
            &&& bytes == rows[stored_index(rows, series_key, config.schedule_of(time).chunk_start)].3
            &&& meta == ChunkMeta {
                series_key,
                start: config.schedule_of(time).chunk_start,
                stop: config.schedule_of(time).chunk_end,
            }
            &&& decompressed(bytes) is Ok
        },
{
    let w = config.schedule_of(time);
    lemma_window_facts(config, time);
    lemma_window_of_start(config, time);
    match found {
        Some((meta, bytes)) => {
            let i = choose|i: int|
                0 <= i < rows.len() && #[trigger] rows[i] == row_of(
                    series_key,
                    meta.start,
                    meta.stop,
                    bytes,
                );
            assert(row_sound(rows[i], config));
            assert(config.schedule_of(meta.start).holds(w.chunk_start));
            lemma_window_facts(config, meta.start);
            assert(config.schedule_of(w.chunk_start) == config.schedule_of(meta.start));
            lemma_stored_once(rows, config, series_key, w.chunk_start, i);
        },
        None => {
            if is_stored(rows, series_key, w.chunk_start) {
                let j = stored_index(rows, series_key, w.chunk_start);
                assert(row_sound(rows[j], config));
                assert(covers(rows[j], series_key, w.chunk_start, w.chunk_end));
            }
        },
    }
}

/// In a sound state, what a series holds for a window lies from zero on and
/// in that window.
pub proof fn lemma_window_map_in_window(
    buffers: Map<i64, Buffer>,
    rows: Seq<(i64, i64, i64, Seq<u8>)>,
    config: ScheduleConfig,
    series_key: i64,
    start: i64,
    t: i64,
)
    requires
        sound(buffers, rows, config),
        window_map(buffers, rows, series_key, start).contains_key(t),
    ensures
        0 <= start <= t < i64::MAX,
        config.schedule_of(t).chunk_start == start,
        config.schedule_of(start) == config.schedule_of(t),
        config.schedule_of(t).holds(t),
{
    if live_at(buffers, series_key, start) {
        let b = buffers[series_key];
        assert(buffer_sound(b, config));
        assert(b.window.holds(t));
        lemma_window_facts(config, start);
    } else {
        let i = stored_index(rows, series_key, start);
        assert(stored_under(rows[i], series_key, start));
        assert(row_sound(rows[i], config));
        assert(stored_map(rows[i].3).contains_key(t));
        lemma_window_facts(config, start);
        assert(config.schedule_of(start).holds(t));
    }
}

/// In a sound state, what a series holds at the times of a window is what it
/// holds for that window.
pub proof fn lemma_content_of_window(
    buffers: Map<i64, Buffer>,
    rows: Seq<(i64, i64, i64, Seq<u8>)>,
    config: ScheduleConfig,
    series_key: i64,
    time: i64,
    t: i64,
)
    requires
        sound(buffers, rows, config),
        time < i64::MAX,
    ensures
        ({
            let w = config.schedule_of(time);
            let c = content_of(buffers, rows, config, series_key);
            let m = window_map(buffers, rows, series_key, w.chunk_start);
            &&& m.contains_key(t) <==> c.contains_key(t) && w.holds(t)
            &&& m.contains_key(t) ==> m[t] == c[t]
        }),
{
    let w = config.schedule_of(time);
    let m = window_map(buffers, rows, series_key, w.chunk_start);
    lemma_window_facts(config, time);
    lemma_window_of_start(config, time);
    if m.contains_key(t) {
        lemma_window_map_in_window(buffers, rows, config, series_key, w.chunk_start, t);
    }
}

/// A query that goes from window to window gathers what the series holds:
/// when what was gathered up to `cur` is part of the content and has all of
/// it from `start` up to `cur`, then with the window of `cur` added it has
/// all of it up to the end of that window.
pub proof fn lemma_gather_step(
    buffers: Map<i64, Buffer>,
    rows: Seq<(i64, i64, i64, Seq<u8>)>,
    config: ScheduleConfig,
    series_key: i64,
    start: i64,
    cur: i64,
    gathered: Map<i64, u64>,
)
    requires
        sound(buffers, rows, config),
        cur < i64::MAX,
        gathers(gathered, content_of(buffers, rows, config, series_key), start, cur),
    ensures
        gathers(
            gathered.union_prefer_right(
                window_map(buffers, rows, series_key, config.schedule_of(cur).chunk_start),
            ),
            content_of(buffers, rows, config, series_key),
            start,
            config.schedule_of(cur).chunk_end,
        ),
{
    let w = config.schedule_of(cur);
    let c = content_of(buffers, rows, config, series_key);
    let m = window_map(buffers, rows, series_key, w.chunk_start);
    let g = gathered.union_prefer_right(m);
    lemma_window_facts(config, cur);
    assert forall|t: i64| g.contains_key(t) implies c.contains_key(t) && g[t] == c[t] by {
        lemma_content_of_window(buffers, rows, config, series_key, cur, t);
    }
    assert forall|t: i64| c.contains_key(t) && start <= t < w.chunk_end implies g.contains_key(
        t,
    ) by {
        lemma_content_of_window(buffers, rows, config, series_key, cur, t);
    }
}

/// `gathered` is part of `content`, and has all of it from `start` up to
/// `cur`.
pub open spec fn gathers(gathered: Map<i64, u64>, content: Map<i64, u64>, start: i64, cur: i64) -> bool {
    &&& forall|t: i64| #[trigger] gathered.contains_key(t) ==> content.contains_key(t) && gathered[t] == content[t]
    &&& forall|t: i64| #[trigger] content.contains_key(t) && start <= t < cur ==> gathered.contains_key(t)
}

/// What was gathered up to the end of a range is, within the range, the
/// content within the range.
pub proof fn lemma_gathered_all(
    gathered: Map<i64, u64>,
    content: Map<i64, u64>,
    start: i64,
    stop: i64,
    cur: i64,
)
    requires
        gathers(gathered, content, start, cur),
        stop <= cur,
    ensures
        within(gathered, start, stop) == within(content, start, stop),
{
    assert(within(gathered, start, stop) =~= within(content, start, stop));
}

/// What a lookup in a sound catalog gives for a window that no buffer stands
/// for is what the series holds for that window, and its bytes are not at
/// fault.
pub proof fn lemma_read_is_window_map(
    buffers: Map<i64, Buffer>,
    rows: Seq<(i64, i64, i64, Seq<u8>)>,
    config: ScheduleConfig,
    series_key: i64,
    time: i64,
    found: Option<(ChunkMeta, Seq<u8>)>,
)
    requires
        sound(buffers, rows, config),
        time < i64::MAX,
        !live_at(buffers, series_key, config.schedule_of(time).chunk_start),
        lookup_outcome(
            rows,
            series_key,
            config.schedule_of(time).chunk_start,
            config.schedule_of(time).chunk_end,
            found,
        ),
    ensures
        window_map(buffers, rows, series_key, config.schedule_of(time).chunk_start) == match found {
            Some((_, bytes)) => stored_map(bytes),
            None => Map::empty(),
        },
        found matches Some((_, bytes)) ==> decompressed(bytes) is Ok,
{
    lemma_lookup_is_determined(rows, config, series_key, time, found);
}

/// With one row more, a sound catalog stores what it stored, and the new row.
pub proof fn lemma_stored_after_push(
    rows: Seq<(i64, i64, i64, Seq<u8>)>,
    config: ScheduleConfig,
    row: (i64, i64, i64, Seq<u8>),
    series_key: i64,
    start: i64,
)
    requires
        catalog_sound(rows.push(row), config),
    ensures
        catalog_sound(rows, config),
        is_stored(rows.push(row), series_key, start) <==> is_stored(rows, series_key, start)
            || stored_under(row, series_key, start),
        is_stored(rows, series_key, start) ==> rows.push(row)[stored_index(
            rows.push(row),
            series_key,
            start,
        )] == rows[stored_index(rows, series_key, start)],
        stored_under(row, series_key, start) ==> rows.push(row)[stored_index(
            rows.push(row),
            series_key,
            start,
        )] == row,
{
    let after = rows.push(row);
    let n = rows.len() as int;
    assert forall|i: int| 0 <= i < rows.len() implies row_sound(#[trigger] rows[i], config) by {
        assert(rows[i] == after[i]);
    }
    assert forall|i: int, j: int| 0 <= i < j < rows.len() implies !((#[trigger] rows[i]).0 == (
    #[trigger] rows[j]).0 && rows[i].1 == rows[j].1) by {
        assert(rows[i] == after[i] && rows[j] == after[j]);
    }
    if is_stored(rows, series_key, start) {
        let i = stored_index(rows, series_key, start);
        assert(after[i] == rows[i]);
        lemma_stored_once(after, config, series_key, start, i);
    }
    if stored_under(row, series_key, start) {
        assert(after[n] == row);
        lemma_stored_once(after, config, series_key, start, n);
    }
    if is_stored(after, series_key, start) {
        let i = stored_index(after, series_key, start);
        if i < n {
            assert(after[i] == rows[i]);
            assert(stored_under(rows[i], series_key, start));
        }
    }
}

/// Rows that are apart stay apart when the rows of one window are taken
/// away.
pub proof fn lemma_without_apart(
    rows: Seq<(i64, i64, i64, Seq<u8>)>,
    series_key: i64,
    start: i64,
    stop: i64,
)
    requires
        apart(rows),
    ensures
        apart(without(rows, series_key, start, stop)),
    decreases rows.len(),
{
    let out = without(rows, series_key, start, stop);
    if rows.len() > 0 {
        let rest = rows.drop_last();
        let rest_out = without(rest, series_key, start, stop);
        let n = rows.len() - 1;
        assert forall|i: int, j: int| 0 <= i < j < rest.len() implies !((#[trigger] rest[i]).0 == (
        #[trigger] rest[j]).0 && rest[i].1 == rest[j].1) by {
            assert(rest[i] == rows[i] && rest[j] == rows[j]);
        }
        lemma_without_apart(rest, series_key, start, stop);
        lemma_without(rest, series_key, start, stop);
        assert forall|i: int, j: int| 0 <= i < j < out.len() implies !((#[trigger] out[i]).0 == (
        #[trigger] out[j]).0 && out[i].1 == out[j].1) by {
            if j < rest_out.len() {
                assert(out[i] == rest_out[i] && out[j] == rest_out[j]);
            } else {
                assert(out[j] == rows[n]);
                assert(out[i] == rest_out[i]);
                assert(rest.contains(rest_out[i]));
                let k = choose|k: int| 0 <= k < rest.len() && rest[k] == rest_out[i];
                assert(rows[k] == rest[k]);
                assert(!(rows[k].0 == rows[n].0 && rows[k].1 == rows[n].1));
            }
        }
    }
}

/// Taking the rows for the window of a buffer out of the catalog keeps a
/// sound state sound and every series holding what it held, since the
/// buffer stands for that window; and the catalog then has no chunk for the
/// window.
pub proof fn lemma_clear(
    buffers: Map<i64, Buffer>,
    rows: Seq<(i64, i64, i64, Seq<u8>)>,
    config: ScheduleConfig,
    series_key: i64,
)
    requires
        sound(buffers, rows, config),
        buffers.contains_key(series_key),
    ensures
        sound(buffers, cleared(buffers, rows, series_key), config),
        !is_stored(
            cleared(buffers, rows, series_key),
            series_key,
            buffers[series_key].window.chunk_start,
        ),
        forall|o: i64|
            #[trigger] content_of(buffers, cleared(buffers, rows, series_key), config, o)
                == content_of(buffers, rows, config, o),
{
    let b = buffers[series_key];
    let start = b.window.chunk_start;
    let stop = b.window.chunk_end;
    let base = cleared(buffers, rows, series_key);
    assert(buffer_sound(b, config));
    lemma_without(rows, series_key, start, stop);
    lemma_without_apart(rows, series_key, start, stop);
    assert forall|j: int| 0 <= j < base.len() implies row_sound(#[trigger] base[j], config) by {
        assert(rows.contains(base[j]));
        let i = choose|i: int| 0 <= i < rows.len() && rows[i] == base[j];
        assert(row_sound(rows[i], config));
    }
    assert(catalog_sound(base, config));
    if is_stored(base, series_key, start) {
        let j = stored_index(base, series_key, start);
        assert(stored_under(base[j], series_key, start));
        assert(row_sound(base[j], config));
        assert(keyed(base[j], series_key, start, stop));
        assert(false);
    }
    assert forall|o: i64, s: i64|
        window_map(buffers, base, o, s) == window_map(buffers, rows, o, s) by {
        if !live_at(buffers, o, s) {
            if is_stored(rows, o, s) {
                let i = stored_index(rows, o, s);
                assert(stored_under(rows[i], o, s));
                assert(!keyed(rows[i], series_key, start, stop));
                assert(base.contains(rows[i]));
                let j = choose|j: int| 0 <= j < base.len() && base[j] == rows[i];
                lemma_stored_once(base, config, o, s, j);
            }
            if is_stored(base, o, s) {
                let j = stored_index(base, o, s);
                assert(stored_under(base[j], o, s));
                assert(rows.contains(base[j]));
                let i = choose|i: int| 0 <= i < rows.len() && rows[i] == base[j];
                lemma_stored_once(rows, config, o, s, i);
            }
        }
    }
    assert forall|o: i64| #[trigger]
        content_of(buffers, base, config, o) == content_of(buffers, rows, config, o) by {
        assert(content_of(buffers, base, config, o) =~= content_of(buffers, rows, config, o));
    }
}

/// Putting a chunk that reads back as a buffer into a sound catalog that
/// has none for the buffer's window keeps the state sound and every series
/// holding what it held, whether the buffer stays or goes.
pub proof fn lemma_evict(
    buffers: Map<i64, Buffer>,
    rows: Seq<(i64, i64, i64, Seq<u8>)>,
    config: ScheduleConfig,
    series_key: i64,
    bytes: Seq<u8>,
)
    requires
        sound(buffers, rows, config),
        buffers.contains_key(series_key),
        !is_stored(rows, series_key, buffers[series_key].window.chunk_start),
        decompressed(bytes) == Ok::<_, DecompressFault>(buffers[series_key].content),
    ensures
        ({
            let after = rows.push(eviction_row(buffers, series_key, bytes));
            &&& sound(buffers, after, config)
            &&& sound(buffers.remove(series_key), after, config)
            &&& forall|o: i64|
                #[trigger] content_of(buffers, after, config, o) == content_of(
                    buffers,
                    rows,
                    config,
                    o,
                )
            &&& forall|o: i64|
                #[trigger] content_of(buffers.remove(series_key), after, config, o) == content_of(
                    buffers,
                    rows,
                    config,
                    o,
                )
        }),
{
    let b = buffers[series_key];
    let row = eviction_row(buffers, series_key, bytes);
    let after = rows.push(row);
    let gone = buffers.remove(series_key);
    let n = rows.len() as int;
    assert(buffer_sound(b, config));
    assert(row_sound(row, config));
    assert forall|i: int| 0 <= i < after.len() implies row_sound(#[trigger] after[i], config) by {
        if i < n {
            assert(after[i] == rows[i]);
        }
    }
    assert forall|i: int, j: int| 0 <= i < j < after.len() implies !((#[trigger] after[i]).0 == (
    #[trigger] after[j]).0 && after[i].1 == after[j].1) by {
        assert(after[i] == rows[i]);
        if j < n {
            assert(after[j] == rows[j]);
        } else {
            if rows[i].0 == series_key && rows[i].1 == b.window.chunk_start {
                assert(stored_under(rows[i], series_key, b.window.chunk_start));
            }
        }
    }
    assert(catalog_sound(after, config));
    assert forall|k: i64| gone.contains_key(k) implies buffer_sound(#[trigger] gone[k], config) by {
        assert(gone[k] == buffers[k]);
    }
    assert forall|o: i64, start: i64|
        window_map(buffers, after, o, start) == window_map(buffers, rows, o, start) && window_map(
            gone,
            after,
            o,
            start,
        ) == window_map(buffers, rows, o, start) by {
        lemma_stored_after_push(rows, config, row, o, start);
        if o != series_key {
            assert(gone.contains_key(o) == buffers.contains_key(o));
            if gone.contains_key(o) {
                assert(gone[o] == buffers[o]);
            }
        }
    }
    assert forall|o: i64| #[trigger]
        content_of(buffers, after, config, o) == content_of(buffers, rows, config, o) by {
        assert(content_of(buffers, after, config, o) =~= content_of(buffers, rows, config, o));
    }
    assert forall|o: i64| #[trigger]
        content_of(gone, after, config, o) == content_of(buffers, rows, config, o) by {
        assert(content_of(gone, after, config, o) =~= content_of(buffers, rows, config, o));
    }
}

/// Giving a series without a buffer the buffer of a point's window, loaded
/// from a sound catalog and with the point put in, keeps the state sound and
/// adds the point to what the series holds.
pub proof fn lemma_load_and_insert(
    buffers: Map<i64, Buffer>,
    rows: Seq<(i64, i64, i64, Seq<u8>)>,
    config: ScheduleConfig,
    series_key: i64,
    point: DataPoint,
    loaded: Map<i64, u64>,
)
    requires
        sound(buffers, rows, config),
        !buffers.contains_key(series_key),
        0 <= point.time < i64::MAX,
        loads(rows, series_key, config.schedule_of(point.time), Ok(loaded)),
    ensures
        ({
            let after = buffers.insert(
                series_key,
                Buffer {
                    window: config.schedule_of(point.time),
                    content: loaded.insert(point.time, point.value),
                },
            );
            &&& sound(after, rows, config)
            &&& content_of(after, rows, config, series_key) == content_of(
                buffers,
                rows,
                config,
                series_key,
            ).insert(point.time, point.value)
            &&& forall|o: i64|
                o != series_key ==> #[trigger] content_of(after, rows, config, o) == content_of(
                    buffers,
                    rows,
                    config,
                    o,
                )
        }),
{
    let w = config.schedule_of(point.time);
    let fresh = Buffer { window: w, content: loaded.insert(point.time, point.value) };
    let after = buffers.insert(series_key, fresh);
    lemma_window_facts(config, point.time);
    lemma_window_of_start(config, point.time);
    let found = choose|found: Option<(ChunkMeta, Seq<u8>)>|
        #[trigger] lookup_outcome(rows, series_key, w.chunk_start, w.chunk_end, found) && Ok::<
            _,
            DecompressFault,
        >(loaded) == match found {
            Some((_, bytes)) => decompressed(bytes),
            None => Ok(Map::empty()),
        };
    lemma_read_is_window_map(buffers, rows, config, series_key, point.time, found);
    assert(loaded == window_map(buffers, rows, series_key, w.chunk_start));
    assert forall|t: i64| #[trigger] fresh.content.contains_key(t) implies w.holds(t) by {
        if t != point.time {
            lemma_window_map_in_window(buffers, rows, config, series_key, w.chunk_start, t);
        }
    }
    assert(buffer_sound(fresh, config));
    assert forall|k: i64| after.contains_key(k) implies buffer_sound(#[trigger] after[k], config) by {
        if k != series_key {
            assert(after[k] == buffers[k]);
        }
    }
    assert(content_of(after, rows, config, series_key) =~= content_of(
        buffers,
        rows,
        config,
        series_key,
    ).insert(point.time, point.value));
    assert forall|o: i64| o != series_key implies #[trigger] content_of(after, rows, config, o)
        == content_of(buffers, rows, config, o) by {
        assert(content_of(after, rows, config, o) =~= content_of(buffers, rows, config, o));
    }
}

/// Putting a point into the buffer whose window holds its time keeps the
/// state sound and adds the point to what the series holds.
pub proof fn lemma_insert_into_buffer(
    buffers: Map<i64, Buffer>,
    rows: Seq<(i64, i64, i64, Seq<u8>)>,
    config: ScheduleConfig,
    series_key: i64,
    point: DataPoint,
)
    requires
        sound(buffers, rows, config),
        0 <= point.time < i64::MAX,
        live_holds(buffers, series_key, point.time),
    ensures
        ({
            let after = buffers.insert(
                series_key,
                Buffer {
                    window: buffers[series_key].window,
                    content: buffers[series_key].content.insert(point.time, point.value),
                },
            );
            &&& sound(after, rows, config)
            &&& content_of(after, rows, config, series_key) == content_of(
                buffers,
                rows,
                config,
                series_key,
            ).insert(point.time, point.value)
            &&& forall|o: i64|
                o != series_key ==> #[trigger] content_of(after, rows, config, o) == content_of(
                    buffers,
                    rows,
                    config,
                    o,
                )
        }),
{
    let b = buffers[series_key];
    let fresh = Buffer { window: b.window, content: b.content.insert(point.time, point.value) };
    let after = buffers.insert(series_key, fresh);
    assert(buffer_sound(b, config));
    lemma_window_facts(config, b.window.chunk_start);
    assert(config.schedule_of(point.time) == b.window);
    assert(buffer_sound(fresh, config));
    assert forall|k: i64| after.contains_key(k) implies buffer_sound(#[trigger] after[k], config) by {
        if k != series_key {
            assert(after[k] == buffers[k]);
        }
    }
    assert(content_of(after, rows, config, series_key) =~= content_of(
        buffers,
        rows,
        config,
        series_key,
    ).insert(point.time, point.value));
    assert forall|o: i64| o != series_key implies #[trigger] content_of(after, rows, config, o)
        == content_of(buffers, rows, config, o) by {
        assert(content_of(after, rows, config, o) =~= content_of(buffers, rows, config, o));
    }
}

/// Putting the buffer of a series away keeps a sound state sound and every
/// series holding what it held, however it ends.
pub proof fn lemma_save_keeps_content(
    buffers: Map<i64, Buffer>,
    rows: Seq<(i64, i64, i64, Seq<u8>)>,
    buffers_after: Map<i64, Buffer>,
    rows_after: Seq<(i64, i64, i64, Seq<u8>)>,
    config: ScheduleConfig,
    series_key: i64,
    r: Result<(), KelpieError>,
)
    requires
        sound(buffers, rows, config),
        save_outcome(buffers, rows, buffers_after, rows_after, series_key, r),
    ensures
        sound(buffers_after, rows_after, config),
        forall|o: i64|
            #[trigger] content_of(buffers_after, rows_after, config, o) == content_of(
                buffers,
                rows,
                config,
                o,
            ),
{
    if buffers.contains_key(series_key) {
        match r {
            Ok(()) => {
                lemma_saved_keeps_content(buffers, rows, rows_after, config, series_key);
            },
            Err(KelpieError::SetChunk(e)) => {
                let bytes = choose|bytes: Seq<u8>| #[trigger]
                    is_eviction_chunk(buffers, series_key, bytes) && save_failed(
                        buffers,
                        rows,
                        rows_after,
                        series_key,
                        bytes,
                    );
                lemma_clear(buffers, rows, config, series_key);
                lemma_evict(
                    buffers,
                    cleared(buffers, rows, series_key),
                    config,
                    series_key,
                    bytes,
                );
            },
            _ => {},
        }
    }
}

/// The law of inserts. An insert leaves a sound state sound; it adds the
/// point to what its series holds where the point is accepted and the
/// insert succeeds, and changes nothing of what any series holds otherwise.
pub proof fn lemma_insert_keeps_content(
    buffers: Map<i64, Buffer>,
    rows: Seq<(i64, i64, i64, Seq<u8>)>,
    buffers_after: Map<i64, Buffer>,
    rows_after: Seq<(i64, i64, i64, Seq<u8>)>,
    config: ScheduleConfig,
    series_key: i64,
    point: DataPoint,
    r: Result<(), KelpieError>,
)
    requires
        sound(buffers, rows, config),
        insert_outcome(buffers, rows, buffers_after, rows_after, config, series_key, point, r),
    ensures
        sound(buffers_after, rows_after, config),
        forall|o: i64|
            #[trigger] content_of(buffers_after, rows_after, config, o) == content_after_insert(
                content_of(buffers, rows, config, o),
                series_key,
                o,
                point,
                r,
            ),
{
    if !accepted(point) {
    } else if live_holds(buffers, series_key, point.time) {
        lemma_insert_into_buffer(buffers, rows, config, series_key, point);
    } else {
        let window = config.schedule_of(point.time);
        let gone = buffers.remove(series_key);
        match r {
            Ok(()) => {
                lemma_saved_keeps_content(buffers, rows, rows_after, config, series_key);
                let loaded = choose|loaded: Map<i64, u64>|
                    #[trigger] loads(rows_after, series_key, window, Ok(loaded)) && buffers_after
                        == buffers.insert(
                        series_key,
                        Buffer { window, content: loaded.insert(point.time, point.value) },
                    );
                lemma_load_and_insert(gone, rows_after, config, series_key, point, loaded);
                assert(gone.insert(
                    series_key,
                    Buffer { window, content: loaded.insert(point.time, point.value) },
                ) =~= buffers_after);
            },
            Err(KelpieError::GetChunk(_)) => {
                lemma_saved_keeps_content(buffers, rows, rows_after, config, series_key);
            },
            Err(KelpieError::Decompress(_)) => {
                lemma_saved_keeps_content(buffers, rows, rows_after, config, series_key);
            },
            Err(_) => {
                lemma_save_keeps_content(
                    buffers,
                    rows,
                    buffers_after,
                    rows_after,
                    config,
                    series_key,
                    r,
                );
            },
        }
    }
}

/// Once the buffer of a series was put into the catalog, the state without
/// that buffer is sound, and every series holds what it held.
pub proof fn lemma_saved_keeps_content(
    buffers: Map<i64, Buffer>,
    rows: Seq<(i64, i64, i64, Seq<u8>)>,
    rows_after: Seq<(i64, i64, i64, Seq<u8>)>,
    config: ScheduleConfig,
    series_key: i64,
)
    requires
        sound(buffers, rows, config),
        saved(buffers, rows, rows_after, series_key),
    ensures
        sound(buffers.remove(series_key), rows_after, config),
        forall|o: i64|
            #[trigger] content_of(buffers.remove(series_key), rows_after, config, o) == content_of(
                buffers,
                rows,
                config,
                o,
            ),
{
    if buffers.contains_key(series_key) {
        let bytes = choose|bytes: Seq<u8>| #[trigger]
            is_eviction_chunk(buffers, series_key, bytes) && rows_after == cleared(
                buffers,
                rows,
                series_key,
            ).push(eviction_row(buffers, series_key, bytes));
        lemma_clear(buffers, rows, config, series_key);
        lemma_evict(buffers, cleared(buffers, rows, series_key), config, series_key, bytes);
    } else {
        assert(buffers.remove(series_key) =~= buffers);
    }
}

/// The rows of a sound catalog are windows of the configuration: each
/// starts at a multiple of the width, from zero on, and ends one width
/// later, or at the largest time where that is out of range.
pub proof fn lemma_rows_are_windows(
    rows: Seq<(i64, i64, i64, Seq<u8>)>,
    config: ScheduleConfig,
    i: int,
)
    requires
        config.wf(),
        catalog_sound(rows, config),
        0 <= i < rows.len(),
    ensures
        rows[i].1 >= 0,
        (rows[i].1 as int) % config.size() == 0,
        rows[i].2 == (if rows[i].1 + config.size() > i64::MAX {
            i64::MAX as int
        } else {
            rows[i].1 + config.size()
        }),
{
    assert(row_sound(rows[i], config));
    lemma_start_bounds(config, rows[i].1);
}

/// The rows that a sound catalog has for one series do not overlap: of any
/// two, one ends by the start of the other.
pub proof fn lemma_rows_do_not_overlap(
    rows: Seq<(i64, i64, i64, Seq<u8>)>,
    config: ScheduleConfig,
    i: int,
    j: int,
)
    requires
        config.wf(),
        catalog_sound(rows, config),
        0 <= i < rows.len(),
        0 <= j < rows.len(),
        i != j,
        rows[i].0 == rows[j].0,
    ensures
        rows[i].1 != rows[j].1,
        rows[i].2 <= rows[j].1 || rows[j].2 <= rows[i].1,
{
    if i < j {
        assert(!(rows[i].0 == rows[j].0 && rows[i].1 == rows[j].1));
    } else {
        assert(!(rows[j].0 == rows[i].0 && rows[j].1 == rows[i].1));
    }
    lemma_rows_are_windows(rows, config, i);
    lemma_rows_are_windows(rows, config, j);
    let d = config.size();
    let a = rows[i].1 as int;
    let b = rows[j].1 as int;
    lemma_fundamental_div_mod(a, d);
    lemma_fundamental_div_mod(b, d);
    let qa = a / d;
    let qb = b / d;
    if a < b {
        assert(b >= a + d) by (nonlinear_arith)
            requires
                a == d * qa,
                b == d * qb,
                a < b,
                d > 0,
        ;
    } else {
        assert(a >= b + d) by (nonlinear_arith)
            requires
                a == d * qa,
                b == d * qb,
                b < a,
                d > 0,
        ;
    }
}

} // verus!
