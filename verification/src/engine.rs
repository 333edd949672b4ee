//! The engine: a buffer for each series that is being written to, a catalog
//! for the buffers that were put away, inserts that keep the two in step,
//! and queries that read from both.

use vstd::prelude::*;
use std::collections::HashMap;
use crate::chunk::{Chunk, DecompressFault, decompressed};
use crate::model::{Buffer, KelpieError, accepted, answer_is_drawn, cleared, content_after_insert, content_of, eviction_row, insert_outcome, is_eviction_chunk, live_at, live_exactly, live_holds, load_outcome, loads, reads, save_failed, save_outcome, sound, window_map, lemma_gather_drawn_step, lemma_read_is_drawn};
use crate::sound::{gathers, lemma_gather_step, lemma_gathered_all, lemma_insert_keeps_content, lemma_read_is_window_map};
use crate::schedule::{Schedule, ScheduleConfig, lemma_window_facts, lemma_window_holds_its_time};
use crate::series::{DataPoint, RawSeries, within, lemma_points_of_map};
use crate::store::{ChunkMeta, KelpieChunkStore, SetChunkError, SqliteChunkStore, MAX_CHUNK_LEN, lookup_outcome};
use crate::tidy::{answer_is_held, answers_buffer, gathers_buffer, tidy, lemma_gather_held_step, lemma_live_window, lemma_gather_buffer_step, lemma_gathered_buffer, lemma_insert_keeps_tidy, lemma_read_in_window, lemma_read_without_fault};

verus! {

/// The buffer of one series: a window, and the points of that window that
/// were inserted since the buffer was made or loaded.
#[derive(Debug)]
pub struct Series {
    schedule: Schedule,
    data: RawSeries,
}

impl Series {
    /// The window and the content of the buffer.
    pub closed spec fn model(&self) -> Buffer {
        Buffer { window: self.schedule, content: self.data@ }
    }

    /// The points are kept in order.
    pub closed spec fn wf(&self) -> bool {
        self.data.wf()
    }

    /// An empty buffer for a window.
    pub fn new(schedule: Schedule) -> (r: Self)
        ensures
            r.wf(),
            r.model() == (Buffer { window: schedule, content: Map::empty() }),
    {
        let data = RawSeries::new();
        Self { data, schedule }
    }

    /// Takes the point in if the window holds its time, and says whether it
    /// did.
    pub fn try_insert(&mut self, data_point: DataPoint) -> (r: bool)
        requires
            old(self).wf(),
        ensures
            final(self).wf(),
            r == old(self).model().window.holds(data_point.time),
            final(self).model() == (if r {
                Buffer {
                    window: old(self).model().window,
                    content: old(self).model().content.insert(data_point.time, data_point.value),
                }
            } else {
                old(self).model()
            }),
    {
        if self.schedule.contains(data_point.time) {
            self.data.insert(data_point);
            return true;
        }
        false
    }
}

/// Where an insert has left its point.
pub enum InsertStatus {
    /// In a buffer, while the buffer of the window given waits to be put
    /// into the catalog.
    CompactmentPending(Schedule),
    /// In a buffer.
    Cached,
}

/// The engine.
pub struct Kelpie {
    chunk_store: SqliteChunkStore,
    series: HashMap<i64, Series>,
    schedule_config: ScheduleConfig,
}

impl Kelpie {
    /// The buffers, by series.
    pub closed spec fn buffers(&self) -> Map<i64, Buffer> {
        Map::new(|k: i64| self.series@.contains_key(k), |k: i64| self.series@[k].model())
    }

    /// The rows of the catalog, oldest first.
    pub closed spec fn rows(&self) -> Seq<(i64, i64, i64, Seq<u8>)> {
        self.chunk_store.rows()
    }

    /// The path of the database that the catalog is in.
    pub closed spec fn path(&self) -> Seq<char> {
        self.chunk_store.path()
    }

    /// The width of the windows.
    pub closed spec fn config(&self) -> ScheduleConfig {
        self.schedule_config
    }

    /// The windows have a width, and every buffer keeps its points in order.
    pub closed spec fn wf(&self) -> bool {
        &&& self.schedule_config.wf()
        &&& forall|k: i64| self.series@.contains_key(k) ==> (#[trigger] self.series@[k]).wf()
    }

    /// Every buffer and every row of the catalog is for one window and holds
    /// times of that window only: see `tidy`. Every insert leaves a tidy
    /// engine tidy.
    pub open spec fn is_tidy(&self) -> bool {
        tidy(self.buffers(), self.rows(), self.config())
    }

    /// The engine is tidy, and the catalog has no two chunks for one window
    /// of one series: see `sound`. An engine is so when it is made with a
    /// catalog in memory, and every insert leaves it so.
    pub open spec fn is_sound(&self) -> bool {
        sound(self.buffers(), self.rows(), self.config())
    }

    /// What the engine holds of a series.
    pub open spec fn content(&self, series_key: i64) -> Map<i64, u64> {
        content_of(self.buffers(), self.rows(), self.config(), series_key)
    }

    /// An engine over a catalog, without a buffer and with windows of the
    /// default width. Over a catalog that holds no chunk it is sound and
    /// holds nothing.
    fn with_store(chunk_store: SqliteChunkStore) -> (r: Self)
        ensures
            r.wf(),
            r.buffers() == Map::<i64, Buffer>::empty(),
            r.rows() == chunk_store.rows(),
            r.path() == chunk_store.path(),
            r.config().size() == crate::schedule::DEFAULT_CHUNK_SIZE,
            chunk_store.rows().len() == 0 ==> r.is_sound() && r.is_tidy() && forall|k: i64| #[trigger]
                r.content(k) == Map::<i64, u64>::empty(),
    {
        let series: HashMap<i64, Series> = HashMap::new();
        let r = Self { chunk_store, series, schedule_config: ScheduleConfig::default() };
        assert(r.buffers() =~= Map::<i64, Buffer>::empty());
        proof {
            if r.rows().len() == 0 {
                assert forall|k: i64| #[trigger] r.content(k) == Map::<i64, u64>::empty() by {
                    assert(r.content(k) =~= Map::<i64, u64>::empty());
                }
            }
        }
        r
    }

    /// An engine with a catalog in memory. It holds nothing.
    pub fn new_memory() -> (r: Result<Self, sqlite::Error>)
        ensures
            r matches Ok(engine) ==> {
                &&& engine.wf()
                &&& engine.is_sound()
                &&& engine.is_tidy()
                &&& engine.buffers() == Map::<i64, Buffer>::empty()
                &&& engine.rows().len() == 0
                &&& engine.path() == crate::store::MEMORY_PATH@
                &&& engine.config().size() == crate::schedule::DEFAULT_CHUNK_SIZE
                &&& forall|k: i64| #[trigger] engine.content(k) == Map::<i64, u64>::empty()
            },
    {
        match SqliteChunkStore::new_memory() {
            Ok(chunk_store) => Ok(Self::with_store(chunk_store)),
            Err(e) => Err(e),
        }
    }

    /// An engine with its catalog in the database file at `path`. It has no
    /// buffer, and its catalog holds the chunks that the file holds. Under
    /// the path `:memory:` it is an engine with a catalog in memory, and
    /// holds nothing. What is stated of the engine holds as long as nothing
    /// else writes to the file.
    pub fn new_path(path: &str) -> (r: Result<Self, sqlite::Error>)
        ensures
            r matches Ok(engine) ==> {
                &&& engine.wf()
                &&& engine.path() == path@
                &&& engine.buffers() == Map::<i64, Buffer>::empty()
                &&& engine.config().size() == crate::schedule::DEFAULT_CHUNK_SIZE
                &&& path@ == crate::store::MEMORY_PATH@ ==> {
                    &&& engine.is_sound()
                    &&& engine.is_tidy()
                    &&& engine.rows().len() == 0
                    &&& forall|k: i64| #[trigger] engine.content(k) == Map::<i64, u64>::empty()
                }
            },
    {
        match SqliteChunkStore::new_path(path) {
            Ok(chunk_store) => Ok(Self::with_store(chunk_store)),
            Err(e) => Err(e),
        }
    }

    /// What the series holds for the window from `start` to `stop`: its
    /// buffer, where that stands for exactly this window; else the chunk
    /// that the catalog finds for the window, read as a series.
    pub fn query_exact_chunk(&self, series_key: i64, start: i64, stop: i64) -> (r: Result<
        Option<(ChunkMeta, RawSeries)>,
        KelpieError,
    >)
        requires
            self.wf(),
        ensures
            r matches Ok(Some((_, series))) ==> series.wf(),
            live_exactly(self.buffers(), series_key, start, stop) ==> (r matches Ok(
                Some((meta, series)),
            ) && meta == (ChunkMeta { series_key, start, stop }) && series@
                == self.buffers()[series_key].content),
            !live_exactly(self.buffers(), series_key, start, stop) ==> match r {
                Ok(Some((meta, series))) => reads(
                    self.rows(),
                    series_key,
                    start,
                    stop,
                    Ok(Some((meta, series@))),
                ),
                Ok(None) => reads(self.rows(), series_key, start, stop, Ok(None)),
                Err(KelpieError::Decompress(e)) => reads(
                    self.rows(),
                    series_key,
                    start,
                    stop,
                    Err(e.fault()),
                ),
                Err(KelpieError::GetChunk(_)) => true,
                Err(_) => false,
            },
    {
        match self.series.get(&series_key) {
            Some(series) => {
                if series.schedule.chunk_start == start && series.schedule.chunk_end == stop {
                    let meta = ChunkMeta { series_key, start, stop };
                    let series = series.data.clone();
                    return Ok(Some((meta, series)));
                }
            },
            None => {},
        }
        match self.chunk_store.get_chunk(series_key, start, stop) {
            Err(e) => Err(KelpieError::GetChunk(e)),
            Ok(None) => {
                assert(lookup_outcome(self.rows(), series_key, start, stop, None));
                Ok(None)
            },
            Ok(Some((meta, chunk))) => {
                assert(lookup_outcome(self.rows(), series_key, start, stop, Some((meta, chunk@))));
                match chunk.decompress() {
                    Ok(series) => Ok(Some((meta, series))),
                    Err(e) => Err(KelpieError::Decompress(e)),
                }
            },
        }
    }

    /// The points of a series with a time from `start` up to, and not at,
    /// `stop`.
    ///
    /// The windows from that of `start` on are read one after the other and
    /// put together, and what lies outside the range is left out. A range
    /// that holds no time gives the empty series, and that cannot fail; nor
    /// can a range that ends by the end of its first window, where the
    /// buffer of the series stands for that window, since the catalog is not
    /// asked then. Every point of the answer is held by the buffer of the
    /// series or by one of its chunks in the catalog.
    ///
    /// In a tidy engine only the catalog's database can make the query fail,
    /// the answer has every point of the series' buffer that the range
    /// holds, and every point of the answer is held by the buffer or by a
    /// chunk that the catalog has for the point's window. In a sound engine
    /// the answer is what the engine holds of the series within the range.
    pub fn query(&self, series_key: i64, start: i64, stop: i64) -> (r: Result<
        RawSeries,
        KelpieError,
    >)
        requires
            self.wf(),
        ensures
            r matches Ok(series) ==> (series.wf() && forall|t: i64| #[trigger]
                series@.contains_key(t) ==> start <= t < stop),
            r matches Ok(series) ==> answer_is_drawn(
                self.buffers(),
                self.rows(),
                series_key,
                series@,
            ),
            start >= stop ==> (r matches Ok(series) && series@ == Map::<i64, u64>::empty()),
            live_exactly(
                self.buffers(),
                series_key,
                self.config().schedule_of(start).chunk_start,
                self.config().schedule_of(start).chunk_end,
            ) && stop <= self.config().schedule_of(start).chunk_end ==> r is Ok,
            r matches Err(e) ==> e is GetChunk || e is Decompress,
            self.is_tidy() ==> match r {
                Ok(series) => answers_buffer(self.buffers(), series_key, start, stop, series@)
                    && answer_is_held(
                    self.buffers(),
                    self.rows(),
                    self.config(),
                    series_key,
                    series@,
                ),
                Err(e) => e is GetChunk,
            },
            self.is_sound() ==> (r matches Ok(series) ==> series@ == within(
                self.content(series_key),
                start,
                stop,
            )),
    {
        let mut acc = RawSeries::new();
        let mut cur_start = start;
        while cur_start < stop
            invariant
                self.wf(),
                acc.wf(),
                start <= cur_start,
                start >= stop ==> acc@ == Map::<i64, u64>::empty(),
                live_exactly(
                    self.buffers(),
                    series_key,
                    self.config().schedule_of(start).chunk_start,
                    self.config().schedule_of(start).chunk_end,
                ) && stop <= self.config().schedule_of(start).chunk_end ==> cur_start == start
                    || cur_start >= stop,
                answer_is_drawn(self.buffers(), self.rows(), series_key, acc@),
                self.is_sound() ==> gathers(acc@, self.content(series_key), start, cur_start),
                self.is_tidy() ==> gathers_buffer(
                    self.buffers(),
                    series_key,
                    start,
                    cur_start,
                    acc@,
                ) && answer_is_held(
                    self.buffers(),
                    self.rows(),
                    self.config(),
                    series_key,
                    acc@,
                ),
            decreases
                (if cur_start < stop {
                    stop - cur_start
                } else {
                    0
                }),
        {
            let cur_chunk = self.schedule_config.init_schedule_from_time(cur_start);
            proof {
                lemma_window_facts(self.schedule_config, cur_start);
            }
            let closest = self.query_exact_chunk(
                series_key,
                cur_chunk.chunk_start,
                cur_chunk.chunk_end,
            );
            let ghost seen = closest;
            proof {
                if self.is_tidy() {
                    lemma_live_window(self.buffers(), self.config(), series_key, cur_start);
                }
                if !live_exactly(
                    self.buffers(),
                    series_key,
                    cur_chunk.chunk_start,
                    cur_chunk.chunk_end,
                ) {
                    match seen {
                        Ok(Some((meta, chunk))) => {
                            lemma_read_is_drawn(
                                self.rows(),
                                series_key,
                                cur_chunk.chunk_start,
                                cur_chunk.chunk_end,
                                meta,
                                chunk@,
                            );
                        },
                        _ => {},
                    }
                }
                if self.is_tidy() && !live_at(self.buffers(), series_key, cur_chunk.chunk_start) {
                    match seen {
                        Ok(Some((meta, chunk))) => {
                            lemma_read_in_window(
                                self.rows(),
                                self.config(),
                                series_key,
                                cur_start,
                                meta,
                                chunk@,
                            );
                        },
                        Err(KelpieError::Decompress(e)) => {
                            lemma_read_without_fault(
                                self.rows(),
                                self.config(),
                                series_key,
                                cur_start,
                                e.fault(),
                            );
                        },
                        _ => {},
                    }
                }
                if self.is_sound() {
                    self.lemma_read_in_sound_state(series_key, cur_start, closest);
                }
            }
            match closest {
                Err(e) => {
                    return Err(e);
                },
                Ok(Some((_meta, chunk))) => {
                    proof {
                        lemma_gather_drawn_step(
                            self.buffers(),
                            self.rows(),
                            series_key,
                            acc@,
                            chunk@,
                        );
                        if self.is_tidy() {
                            lemma_gather_buffer_step(
                                self.buffers(),
                                self.config(),
                                series_key,
                                start,
                                cur_start,
                                acc@,
                                chunk@,
                            );
                            lemma_gather_held_step(
                                self.buffers(),
                                self.rows(),
                                self.config(),
                                series_key,
                                cur_start,
                                acc@,
                                chunk@,
                            );
                        }
                        if self.is_sound() {
                            lemma_gather_step(
                                self.buffers(),
                                self.rows(),
                                self.config(),
                                series_key,
                                start,
                                cur_start,
                                acc@,
                            );
                        }
                    }
                    acc.absorb(&chunk);
                },
                Ok(None) => {
                    proof {
                        assert(acc@.union_prefer_right(Map::<i64, u64>::empty()) =~= acc@);
                        if self.is_tidy() {
                            lemma_gather_buffer_step(
                                self.buffers(),
                                self.config(),
                                series_key,
                                start,
                                cur_start,
                                acc@,
                                Map::empty(),
                            );
                        }
                        if self.is_sound() {
                            lemma_gather_step(
                                self.buffers(),
                                self.rows(),
                                self.config(),
                                series_key,
                                start,
                                cur_start,
                                acc@,
                            );
                        }
                    }
                },
            }
            assert(cur_start < cur_chunk.chunk_end);
            cur_start = cur_chunk.chunk_end;
        }
        let res = acc.range(start, stop);
        proof {
            if self.is_sound() {
                lemma_gathered_all(acc@, self.content(series_key), start, stop, cur_start);
            }
            if self.is_tidy() {
                lemma_gathered_buffer(
                    self.buffers(),
                    self.config(),
                    series_key,
                    start,
                    stop,
                    cur_start,
                    acc@,
                );
            }
            if start >= stop {
                assert(res@ =~= Map::<i64, u64>::empty());
            }
        }
        Ok(res)
    }

    /// In a sound engine, what reading a window gives is what the series
    /// holds for that window, and no chunk is at fault.
    proof fn lemma_read_in_sound_state(
        &self,
        series_key: i64,
        time: i64,
        r: Result<Option<(ChunkMeta, RawSeries)>, KelpieError>,
    )
        requires
            self.is_sound(),
            time < i64::MAX,
            ({
                let w = self.config().schedule_of(time);
                &&& live_at(self.buffers(), series_key, w.chunk_start) ==> (r matches Ok(
                    Some((meta, series)),
                ) && series@ == self.buffers()[series_key].content)
                &&& !live_at(self.buffers(), series_key, w.chunk_start) ==> match r {
                    Ok(Some((meta, series))) => reads(
                        self.rows(),
                        series_key,
                        w.chunk_start,
                        w.chunk_end,
                        Ok(Some((meta, series@))),
                    ),
                    Ok(None) => reads(
                        self.rows(),
                        series_key,
                        w.chunk_start,
                        w.chunk_end,
                        Ok(None),
                    ),
                    Err(KelpieError::Decompress(e)) => reads(
                        self.rows(),
                        series_key,
                        w.chunk_start,
                        w.chunk_end,
                        Err(e.fault()),
                    ),
                    Err(KelpieError::GetChunk(_)) => true,
                    Err(_) => false,
                }
            }),
        ensures
            r matches Err(e) ==> e is GetChunk,
            r matches Ok(found) ==> window_map(
                self.buffers(),
                self.rows(),
                series_key,
                self.config().schedule_of(time).chunk_start,
            ) == match found {
                Some((_, series)) => series@,
                None => Map::empty(),
            },
    {
        let w = self.config().schedule_of(time);
        if !live_at(self.buffers(), series_key, w.chunk_start) {
            let out: Result<Option<(ChunkMeta, Map<i64, u64>)>, DecompressFault> = match r {
                Ok(Some((meta, series))) => Ok(Some((meta, series@))),
                Ok(None) => Ok(None),
                Err(KelpieError::Decompress(e)) => Err(e.fault()),
                _ => Ok(None),
            };
            if !(r matches Err(KelpieError::GetChunk(_))) {
                assert(reads(self.rows(), series_key, w.chunk_start, w.chunk_end, out));
                let found = choose|found: Option<(ChunkMeta, Seq<u8>)>|
                    #[trigger] lookup_outcome(
                        self.rows(),
                        series_key,
                        w.chunk_start,
                        w.chunk_end,
                        found,
                    ) && out == match found {
                        Some((meta, bytes)) => match decompressed(bytes) {
                            Ok(m) => Ok(Some((meta, m))),
                            Err(e) => Err(e),
                        },
                        None => Ok(None),
                    };
                lemma_read_is_window_map(
                    self.buffers(),
                    self.rows(),
                    self.config(),
                    series_key,
                    time,
                    found,
                );
            }
        }
    }

    /// Puts the buffer of a series, if it has one, into the catalog as a
    /// chunk, in place of what the catalog has for the buffer's window.
    fn save_series(&mut self, series_key: i64) -> (r: Result<(), KelpieError>)
        requires
            old(self).wf(),
        ensures
            final(self).wf(),
            final(self).config() == old(self).config(),
            final(self).path() == old(self).path(),
            save_outcome(
                old(self).buffers(),
                old(self).rows(),
                final(self).buffers(),
                final(self).rows(),
                series_key,
                r,
            ),
    {
        let series = match self.series.get(&series_key) {
            Some(series) => series,
            None => {
                return Ok(());
            },
        };
        proof {
            lemma_points_of_map(series.data.points());
        }
        let chunk = match Chunk::compress_series(&series.data) {
            Ok(chunk) => chunk,
            Err(e) => {
                return Err(KelpieError::Compress(e));
            },
        };
        let start = series.schedule.chunk_start;
        let stop = series.schedule.chunk_end;
        assert(is_eviction_chunk(self.buffers(), series_key, chunk@));
        if chunk.compressed_data.len() > MAX_CHUNK_LEN {
            assert(self.buffers() =~= old(self).buffers());
            assert(save_failed(
                old(self).buffers(),
                old(self).rows(),
                self.rows(),
                series_key,
                chunk@,
            ));
            return Err(KelpieError::SetChunk(SetChunkError::ChunkTooLarge));
        }
        match self.chunk_store.remove_chunk(series_key, start, stop) {
            Ok(()) => {},
            Err(e) => {
                assert(self.buffers() =~= old(self).buffers());
                assert(save_failed(
                    old(self).buffers(),
                    old(self).rows(),
                    self.rows(),
                    series_key,
                    chunk@,
                ));
                return Err(KelpieError::SetChunk(e));
            },
        }
        assert(self.rows() == cleared(old(self).buffers(), old(self).rows(), series_key));
        match self.chunk_store.set_chunk(series_key, start, stop, &chunk) {
            Ok(()) => {
                self.series.remove(&series_key);
                assert(self.buffers() =~= old(self).buffers().remove(series_key));
                assert(self.rows() == cleared(
                    old(self).buffers(),
                    old(self).rows(),
                    series_key,
                ).push(eviction_row(old(self).buffers(), series_key, chunk@)));
                Ok(())
            },
            Err(e) => {
                assert(self.buffers() =~= old(self).buffers());
                assert(save_failed(
                    old(self).buffers(),
                    old(self).rows(),
                    self.rows(),
                    series_key,
                    chunk@,
                ));
                Err(KelpieError::SetChunk(e))
            },
        }
    }

    /// Gives a series the buffer of a window: puts the buffer that it has
    /// into the catalog, and loads the chunk of the window from there, or
    /// starts an empty buffer where the catalog has none.
    fn load_series(&mut self, series_key: i64, schedule: Schedule) -> (r: Result<
        (),
        KelpieError,
    >)
        requires
            old(self).wf(),
        ensures
            final(self).wf(),
            final(self).config() == old(self).config(),
            final(self).path() == old(self).path(),
            load_outcome(
                old(self).buffers(),
                old(self).rows(),
                final(self).buffers(),
                final(self).rows(),
                series_key,
                schedule,
                r,
            ),
    {
        match self.save_series(series_key) {
            Ok(()) => {},
            Err(e) => {
                return Err(e);
            },
        }
        assert(self.buffers() =~= old(self).buffers().remove(series_key));
        let chunk_res = match self.chunk_store.get_chunk(
            series_key,
            schedule.chunk_start,
            schedule.chunk_end,
        ) {
            Ok(found) => found,
            Err(e) => {
                return Err(KelpieError::GetChunk(e));
            },
        };
        let series = match chunk_res {
            Some((_meta, chunk)) => {
                assert(lookup_outcome(
                    self.rows(),
                    series_key,
                    schedule.chunk_start,
                    schedule.chunk_end,
                    Some((_meta, chunk@)),
                ));
                match chunk.decompress() {
                    Ok(raw_series) => Series { schedule, data: raw_series },
                    Err(e) => {
                        assert(loads(self.rows(), series_key, schedule, Err(e.fault())));
                        return Err(KelpieError::Decompress(e));
                    },
                }
            },
            None => {
                assert(lookup_outcome(
                    self.rows(),
                    series_key,
                    schedule.chunk_start,
                    schedule.chunk_end,
                    None,
                ));
                Series::new(schedule)
            },
        };
        let ghost loaded = series.data@;
        let ghost mid = self.buffers();
        let ghost fresh = series.model();
        assert(fresh == (Buffer { window: schedule, content: loaded }));
        assert(loads(self.rows(), series_key, schedule, Ok(loaded)));
        self.series.insert(series_key, series);
        assert(self.buffers() =~= mid.insert(series_key, fresh));
        assert(mid.insert(series_key, fresh) =~= old(self).buffers().insert(series_key, fresh));
        Ok(())
    }

    /// Sees to it that the series has a buffer whose window holds `time`.
    fn ensure_series_for(&mut self, series_key: i64, time: i64) -> (r: Result<(), KelpieError>)
        requires
            old(self).wf(),
        ensures
            final(self).wf(),
            final(self).config() == old(self).config(),
            final(self).path() == old(self).path(),
            live_holds(old(self).buffers(), series_key, time) ==> r is Ok && final(self).buffers()
                == old(self).buffers() && final(self).rows() == old(self).rows(),
            !live_holds(old(self).buffers(), series_key, time) ==> load_outcome(
                old(self).buffers(),
                old(self).rows(),
                final(self).buffers(),
                final(self).rows(),
                series_key,
                old(self).config().schedule_of(time),
                r,
            ),
            r is Ok && 0 <= time < i64::MAX ==> live_holds(final(self).buffers(), series_key, time),
    {
        proof {
            if 0 <= time < i64::MAX {
                lemma_window_holds_its_time(self.schedule_config, time);
            }
        }
        match self.series.get(&series_key) {
            Some(series) => {
                if series.schedule.contains(time) {
                    return Ok(());
                }
            },
            None => {},
        }
        let schedule = self.schedule_config.init_schedule_from_time(time);
        let r = self.load_series(series_key, schedule);
        proof {
            if r is Ok {
                let loaded = choose|loaded: Map<i64, u64>|
                    #[trigger] loads(self.rows(), series_key, schedule, Ok(loaded))
                        && self.buffers() == old(self).buffers().insert(
                        series_key,
                        Buffer { window: schedule, content: loaded },
                    );
                assert(self.buffers()[series_key].window == schedule);
            }
        }
        r
    }

    /// Takes a point of a series in.
    ///
    /// A point whose value is a NaN, or whose time is before zero or the
    /// largest there is, is passed over without an error. What happens to
    /// the buffers and the catalog otherwise, and when the insert succeeds,
    /// is `insert_outcome`. A tidy engine stays tidy. A sound engine stays
    /// sound, the series holds the point afterwards where the insert
    /// succeeded, and nothing else of what any series holds has changed.
    pub fn insert(&mut self, series_key: i64, data_point: DataPoint) -> (r: Result<(), KelpieError>)
        requires
            old(self).wf(),
        ensures
            final(self).wf(),
            final(self).config() == old(self).config(),
            final(self).path() == old(self).path(),
            insert_outcome(
                old(self).buffers(),
                old(self).rows(),
                final(self).buffers(),
                final(self).rows(),
                old(self).config(),
                series_key,
                data_point,
                r,
            ),
            r is Ok && accepted(data_point) ==> live_holds(
                final(self).buffers(),
                series_key,
                data_point.time,
            ) && final(self).buffers()[series_key].content.contains_key(data_point.time)
                && final(self).buffers()[series_key].content[data_point.time] == data_point.value,
            old(self).is_tidy() ==> final(self).is_tidy(),
            old(self).is_sound() ==> final(self).is_sound() && forall|o: i64|
                #[trigger] final(self).content(o) == content_after_insert(
                    old(self).content(o),
                    series_key,
                    o,
                    data_point,
                    r,
                ),
    {
        if data_point.is_nan() {
            return Ok(());
        }
        if data_point.time < 0 {
            return Ok(());
        }
        if data_point.time == i64::MAX {
            return Ok(());
        }
        proof {
            lemma_window_holds_its_time(self.schedule_config, data_point.time);
        }
        match self.ensure_series_for(series_key, data_point.time) {
            Ok(()) => {},
            Err(e) => {
                let r = Err(e);
                proof {
                    self.lemma_insert_law(old(self), series_key, data_point, r);
                }
                return r;
            },
        }
        let ghost mid = self.buffers();
        let mut series = match self.series.remove(&series_key) {
            Some(series) => series,
            None => {
                proof {
                    assert(mid.contains_key(series_key));
                    assert(false);
                }
                return Ok(());
            },
        };
        assert(series.model() == mid[series_key]);
        let taken = series.try_insert(data_point);
        assert(taken);
        self.series.insert(series_key, series);
        proof {
            let w = mid[series_key].window;
            let after = Buffer {
                window: w,
                content: mid[series_key].content.insert(data_point.time, data_point.value),
            };
            assert(self.buffers() =~= mid.insert(series_key, after));
            if !live_holds(old(self).buffers(), series_key, data_point.time) {
                let loaded = choose|loaded: Map<i64, u64>|
                    #[trigger] loads(self.rows(), series_key, w, Ok(loaded)) && mid == old(
                        self,
                    ).buffers().insert(series_key, Buffer { window: w, content: loaded });
                assert(self.buffers() =~= old(self).buffers().insert(
                    series_key,
                    Buffer {
                        window: w,
                        content: loaded.insert(data_point.time, data_point.value),
                    },
                ));
            }
            self.lemma_insert_law(old(self), series_key, data_point, Ok(()));
        }
        Ok(())
    }

    /// The law of inserts, of two states of an engine.
    proof fn lemma_insert_law(
        &self,
        before: &Self,
        series_key: i64,
        data_point: DataPoint,
        r: Result<(), KelpieError>,
    )
        requires
            self.config() == before.config(),
            insert_outcome(
                before.buffers(),
                before.rows(),
                self.buffers(),
                self.rows(),
                before.config(),
                series_key,
                data_point,
                r,
            ),
        ensures
            before.is_tidy() ==> self.is_tidy(),
            before.is_sound() ==> self.is_sound() && forall|o: i64|
                #[trigger] self.content(o) == content_after_insert(
                    before.content(o),
                    series_key,
                    o,
                    data_point,
                    r,
                ),
    {
        if before.is_tidy() {
            lemma_insert_keeps_tidy(
                before.buffers(),
                before.rows(),
                self.buffers(),
                self.rows(),
                before.config(),
                series_key,
                data_point,
                r,
            );
        }
        if before.is_sound() {
            lemma_insert_keeps_content(
                before.buffers(),
                before.rows(),
                self.buffers(),
                self.rows(),
                before.config(),
                series_key,
                data_point,
                r,
            );
        }
    }
}

} // verus!
