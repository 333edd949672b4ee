//! The reference: one ordered series for each key, with the engine's rule
//! for the points it takes in and nothing else. An engine is held against
//! it.

use vstd::prelude::*;
use std::collections::HashMap;
use crate::engine::Kelpie;
use crate::model::{KelpieError, accepted, insert_outcome, taken_in};
use crate::sound::lemma_insert_keeps_content;
use crate::series::{DataPoint, RawSeries, within};

verus! {

/// The reference.
pub struct KelpieFake {
    series: HashMap<i64, RawSeries>,
}

impl KelpieFake {
    /// Every series keeps its points in order.
    pub closed spec fn wf(&self) -> bool {
        forall|k: i64| self.series@.contains_key(k) ==> (#[trigger] self.series@[k]).wf()
    }

    /// What the reference holds of a series.
    pub closed spec fn content(&self, series_key: i64) -> Map<i64, u64> {
        if self.series@.contains_key(series_key) {
            self.series@[series_key]@
        } else {
            Map::empty()
        }
    }

    /// A reference that holds nothing.
    pub fn new() -> (r: Self)
        ensures
            r.wf(),
            forall|k: i64| #[trigger] r.content(k) == Map::<i64, u64>::empty(),
    {
        Self { series: HashMap::new() }
    }

    /// Takes a point of a series in, if it is accepted.
    pub fn insert(&mut self, series_key: i64, data_point: DataPoint)
        requires
            old(self).wf(),
        ensures
            final(self).wf(),
            forall|o: i64|
                #[trigger] final(self).content(o) == taken_in(
                    old(self).content(o),
                    series_key,
                    o,
                    data_point,
                ),
    {
        if data_point.is_nan() {
            return ;
        }
        if data_point.time < 0 {
            return ;
        }
        if data_point.time == i64::MAX {
            return ;
        }
        let mut series = match self.series.remove(&series_key) {
            Some(series) => series,
            None => RawSeries::new(),
        };
        series.insert(data_point);
        self.series.insert(series_key, series);
    }

    /// The points of a series with a time from `start` up to, and not at,
    /// `stop`. It does not fail.
    pub fn query(&self, series_key: i64, start: i64, stop: i64) -> (r: Result<
        RawSeries,
        KelpieError,
    >)
        requires
            self.wf(),
        ensures
            r matches Ok(series) && series.wf() && series@ == within(
                self.content(series_key),
                start,
                stop,
            ),
    {
        if start > stop {
            let empty = RawSeries::new();
            assert(empty@ =~= within(self.content(series_key), start, stop));
            return Ok(empty);
        }
        match self.series.get(&series_key) {
            Some(series) => Ok(series.range(start, stop)),
            None => {
                let empty = RawSeries::new();
                assert(empty@ =~= within(self.content(series_key), start, stop));
                Ok(empty)
            },
        }
    }
}

impl Default for KelpieFake {
    fn default() -> (r: Self)
        ensures
            r.wf(),
            forall|k: i64| #[trigger] r.content(k) == Map::<i64, u64>::empty(),
    {
        Self::new()
    }
}

/// A point at the end of a range is left out of the answer, and so is
/// every point before the start.
pub proof fn lemma_answer_is_half_open(content: Map<i64, u64>, start: i64, stop: i64)
    ensures
        !within(content, start, stop).contains_key(stop),
        forall|t: i64| #[trigger] within(content, start, stop).contains_key(t) ==> start <= t < stop,
        forall|t: i64|
            start <= t < stop && #[trigger] content.contains_key(t) ==> within(
                content,
                start,
                stop,
            ).contains_key(t) && within(content, start, stop)[t] == content[t],
{
}

/// A point that was taken in is in every answer whose range holds its time.
pub proof fn lemma_taken_point_is_answered(
    content: Map<i64, u64>,
    series_key: i64,
    point: DataPoint,
    start: i64,
    stop: i64,
)
    requires
        accepted(point),
        start <= point.time < stop,
    ensures
        within(taken_in(content, series_key, series_key, point), start, stop).contains_key(
            point.time,
        ),
        within(taken_in(content, series_key, series_key, point), start, stop)[point.time]
            == point.value,
{
}

/// Of two points taken in at one time, the value of the second stays; and a
/// point taken in twice is there as if taken in once.
pub proof fn lemma_second_insert_wins(
    content: Map<i64, u64>,
    series_key: i64,
    first: DataPoint,
    second: DataPoint,
)
    requires
        accepted(first),
        accepted(second),
        first.time == second.time,
    ensures
        taken_in(taken_in(content, series_key, series_key, first), series_key, series_key, second)
            == taken_in(content, series_key, series_key, second),
        taken_in(
            taken_in(content, series_key, series_key, second),
            series_key,
            series_key,
            second,
        ) == taken_in(content, series_key, series_key, second),
{
    assert(content.insert(first.time, first.value).insert(second.time, second.value)
        =~= content.insert(second.time, second.value));
    assert(content.insert(second.time, second.value).insert(second.time, second.value)
        =~= content.insert(second.time, second.value));
}

/// Points of different series do not meet: what one series holds is not
/// changed by a point of another.
pub proof fn lemma_series_are_apart(
    content: Map<i64, u64>,
    series_key: i64,
    other: i64,
    point: DataPoint,
)
    requires
        other != series_key,
    ensures
        taken_in(content, series_key, other, point) == content,
{
}

/// One range answers for all windows: a range from the earliest time that a
/// series holds to just after the latest has all that the series holds,
/// however many windows that spans.
pub proof fn lemma_range_over_all(content: Map<i64, u64>, earliest: i64, latest: i64)
    requires
        latest < i64::MAX,
        forall|t: i64| #[trigger] content.contains_key(t) ==> earliest <= t <= latest,
    ensures
        within(content, earliest, (latest + 1) as i64) == content,
{
    assert(within(content, earliest, (latest + 1) as i64) =~= content);
}

/// The engine and the reference hold the same of every series.
pub open spec fn agree(engine: Kelpie, reference: KelpieFake) -> bool {
    forall|k: i64| #[trigger] engine.content(k) == reference.content(k)
}

/// The engine went from `before` to `after` by a successful insert.
pub open spec fn engine_took(before: Kelpie, after: Kelpie, series_key: i64, point: DataPoint) -> bool {
    &&& after.config() == before.config()
    &&& insert_outcome(
        before.buffers(),
        before.rows(),
        after.buffers(),
        after.rows(),
        before.config(),
        series_key,
        point,
        Ok(()),
    )
}

/// The reference went from `before` to `after` by an insert.
pub open spec fn reference_took(
    before: KelpieFake,
    after: KelpieFake,
    series_key: i64,
    point: DataPoint,
) -> bool {
    forall|o: i64| #[trigger] after.content(o) == taken_in(before.content(o), series_key, o, point)
}

/// Parity, one insert at a time: a sound engine and a reference that agree
/// still agree after the same insert, as long as the engine's succeeded; and
/// the engine is sound again.
pub proof fn lemma_parity_step(
    engine: Kelpie,
    engine_after: Kelpie,
    reference: KelpieFake,
    reference_after: KelpieFake,
    series_key: i64,
    point: DataPoint,
)
    requires
        engine.is_sound(),
        agree(engine, reference),
        engine_took(engine, engine_after, series_key, point),
        reference_took(reference, reference_after, series_key, point),
    ensures
        engine_after.is_sound(),
        agree(engine_after, reference_after),
{
    lemma_insert_keeps_content(
        engine.buffers(),
        engine.rows(),
        engine_after.buffers(),
        engine_after.rows(),
        engine.config(),
        series_key,
        point,
        Ok(()),
    );
    assert forall|k: i64| #[trigger] engine_after.content(k) == reference_after.content(k) by {
        assert(engine.content(k) == reference.content(k));
    }
}

/// Parity over a history: when a sound engine and a reference start out in
/// agreement and take the same points in, one after the other, each insert
/// of the engine succeeding, they agree at the end, so that every query has
/// the same answer from both.
pub proof fn lemma_parity(engines: Seq<Kelpie>, references: Seq<KelpieFake>, ops: Seq<(i64, DataPoint)>)
    requires
        engines.len() == ops.len() + 1,
        references.len() == ops.len() + 1,
        engines[0].is_sound(),
        agree(engines[0], references[0]),
        forall|i: int|
            0 <= i < ops.len() ==> #[trigger] engine_took(
                engines[i],
                engines[i + 1],
                ops[i].0,
                ops[i].1,
            ),
        forall|i: int|
            0 <= i < ops.len() ==> #[trigger] reference_took(
                references[i],
                references[i + 1],
                ops[i].0,
                ops[i].1,
            ),
    ensures
        engines.last().is_sound(),
        agree(engines.last(), references.last()),
        forall|k: i64, start: i64, stop: i64|
            #[trigger] within(engines.last().content(k), start, stop) == within(
                references.last().content(k),
                start,
                stop,
            ),
    decreases ops.len(),
{
    if ops.len() > 0 {
        let n = ops.len() - 1;
        let engines0 = engines.drop_last();
        let references0 = references.drop_last();
        let ops0 = ops.drop_last();
        assert forall|i: int| 0 <= i < ops0.len() implies #[trigger] engine_took(
            engines0[i],
            engines0[i + 1],
            ops0[i].0,
            ops0[i].1,
        ) by {
            assert(engine_took(engines[i], engines[i + 1], ops[i].0, ops[i].1));
        }
        assert forall|i: int| 0 <= i < ops0.len() implies #[trigger] reference_took(
            references0[i],
            references0[i + 1],
            ops0[i].0,
            ops0[i].1,
        ) by {
            assert(reference_took(references[i], references[i + 1], ops[i].0, ops[i].1));
        }
        lemma_parity(engines0, references0, ops0);
        assert(engines0.last() == engines[n]);
        assert(references0.last() == references[n]);
        assert(engine_took(engines[n], engines[n + 1], ops[n].0, ops[n].1));
        assert(reference_took(references[n], references[n + 1], ops[n].0, ops[n].1));
        lemma_parity_step(
            engines[n],
            engines[n + 1],
            references[n],
            references[n + 1],
            ops[n].0,
            ops[n].1,
        );
    }
    assert forall|k: i64, start: i64, stop: i64|
        #[trigger] within(engines.last().content(k), start, stop) == within(
            references.last().content(k),
            start,
            stop,
        ) by {
        assert(engines.last().content(k) == references.last().content(k));
    }
}

} // verus!
