//! Windows of time: every buffer and every chunk covers one window, and the
//! windows of one width tile the times from zero on.

use vstd::prelude::*;
use vstd::arithmetic::div_mod::{lemma_fundamental_div_mod, lemma_mod_bound};
use vstd::arithmetic::div_mod::{lemma_div_pos_is_pos, lemma_fundamental_div_mod_converse};

verus! {

/// The width of a window where none is chosen: an hour of milliseconds.
pub const DEFAULT_CHUNK_SIZE: i64 = 3_600_000;

/// A half-open window of time, from `chunk_start` up to `chunk_end`.
#[derive(Clone, Copy, Debug, PartialEq, Eq, Structural)]
pub struct Schedule {
    pub chunk_start: i64,
    pub chunk_end: i64,
}

impl Schedule {
    /// `time` lies in the window.
    pub open spec fn holds(&self, time: i64) -> bool {
        self.chunk_start <= time < self.chunk_end
    }

    /// Whether `time` lies in the window.
    pub fn contains(&self, time: i64) -> (r: bool)
        ensures
            r == self.holds(time),
    {
        self.chunk_start <= time && time < self.chunk_end
    }
}

/// The quotient of `a` by a positive `b`, rounded toward zero.
pub open spec fn trunc_div(a: int, b: int) -> int {
    if a >= 0 {
        a / b
    } else {
        -((-a) / b)
    }
}

/// The width that all windows of an engine share.
#[derive(Clone, Copy, Debug)]
pub struct ScheduleConfig {
    chunk_size: i64,
}

impl ScheduleConfig {
    /// The width of a window.
    pub closed spec fn size(&self) -> int {
        self.chunk_size as int
    }

    /// The width is positive.
    pub open spec fn wf(&self) -> bool {
        self.size() > 0
    }

    /// Where the window of `time` starts: the multiple of the width that
    /// `time` is rounded to, toward zero.
    pub open spec fn start_of(&self, time: i64) -> int {
        trunc_div(time as int, self.size()) * self.size()
    }

    /// Where the window of `time` ends: one width after its start, and the
    /// largest time where that is out of range.
    pub open spec fn end_of(&self, time: i64) -> int {
        if self.start_of(time) + self.size() > i64::MAX {
            i64::MAX as int
        } else {
            self.start_of(time) + self.size()
        }
    }

    /// The window of `time`.
    pub open spec fn schedule_of(&self, time: i64) -> Schedule {
        Schedule { chunk_start: self.start_of(time) as i64, chunk_end: self.end_of(time) as i64 }
    }

    /// A configuration with windows of `chunk_size`, which must be positive.
    pub fn new(chunk_size: i64) -> (r: Option<Self>)
        ensures
            r is Some <==> chunk_size > 0,
            r matches Some(c) ==> c.wf() && c.size() == chunk_size,
    {
        if chunk_size > 0 {
            Some(ScheduleConfig { chunk_size })
        } else {
            None
        }
    }

    /// The width of a window.
    pub fn chunk_size(&self) -> (r: i64)
        ensures
            r == self.size(),
    {
        self.chunk_size
    }

    /// The window that `point` falls in.
    pub fn init_schedule_from_time(&self, point: i64) -> (s: Schedule)
        requires
            self.wf(),
        ensures
            s == self.schedule_of(point),
    {
        proof {
            lemma_start_bounds(*self, point);
        }
        let chunk_start = point / self.chunk_size * self.chunk_size;
        let chunk_end = match chunk_start.checked_add(self.chunk_size) {
            Some(end) => end,
            None => i64::MAX,
        };
        Schedule { chunk_start, chunk_end }
    }
}

impl Default for ScheduleConfig {
    fn default() -> (r: Self)
        ensures
            r.wf(),
            r.size() == DEFAULT_CHUNK_SIZE,
    {
        ScheduleConfig { chunk_size: DEFAULT_CHUNK_SIZE }
    }
}

/// The start of a window lies between zero and the time it was made for,
/// and less than one width from that time.
pub proof fn lemma_start_bounds(c: ScheduleConfig, time: i64)
    requires
        c.wf(),
    ensures
        time >= 0 ==> 0 <= c.start_of(time) <= time < c.start_of(time) + c.size(),
        time < 0 ==> time <= c.start_of(time) <= 0 && c.start_of(time) - c.size() < time,
        c.start_of(time) % c.size() == 0,
{
    let d = c.size();
    let t = time as int;
    if t >= 0 {
        lemma_fundamental_div_mod(t, d);
        lemma_mod_bound(t, d);
        let q = t / d;
        lemma_div_pos_is_pos(t, d);
        assert(d * q == q * d) by (nonlinear_arith);
        assert(0 <= q * d) by (nonlinear_arith)
            requires
                0 <= q,
                0 < d,
        ;
        lemma_fundamental_div_mod_converse(q * d, d, q, 0);
    } else {
        let u = -t;
        lemma_fundamental_div_mod(u, d);
        lemma_mod_bound(u, d);
        let q = u / d;
        lemma_div_pos_is_pos(u, d);
        assert(d * q == q * d) by (nonlinear_arith);
        assert(0 <= q * d) by (nonlinear_arith)
            requires
                0 <= q,
                0 < d,
        ;
        assert((-q) * d == -(q * d)) by (nonlinear_arith);
        lemma_fundamental_div_mod_converse((-q) * d, d, -q, 0);
    }
}

/// The window of a time that an engine takes in holds that time.
pub proof fn lemma_window_holds_its_time(c: ScheduleConfig, time: i64)
    requires
        c.wf(),
        0 <= time < i64::MAX,
    ensures
        c.schedule_of(time).holds(time),
        0 <= c.schedule_of(time).chunk_start,
{
    lemma_start_bounds(c, time);
}

/// Every time from zero on that a window holds has that window for its own:
/// the windows do not overlap.
pub proof fn lemma_window_is_shared(c: ScheduleConfig, time: i64, other: i64)
    requires
        c.wf(),
        0 <= time,
        0 <= other,
        c.schedule_of(time).holds(other),
    ensures
        c.schedule_of(other) == c.schedule_of(time),
{
    lemma_start_bounds(c, time);
    lemma_start_bounds(c, other);
    let d = c.size();
    let qt = (time as int) / d;
    let qo = (other as int) / d;
    assert(qt == qo) by (nonlinear_arith)
        requires
            d > 0,
            qt * d <= other < qt * d + d,
            qo * d <= other < qo * d + d,
    ;
}

/// A window is the window of its own start, whatever time it was made for.
pub proof fn lemma_window_of_start(c: ScheduleConfig, time: i64)
    requires
        c.wf(),
    ensures
        i64::MIN <= c.start_of(time) <= i64::MAX,
        c.schedule_of(c.schedule_of(time).chunk_start) == c.schedule_of(time),
{
    lemma_start_bounds(c, time);
    let d = c.size();
    let s = c.start_of(time);
    let q = trunc_div(time as int, d);
    assert(s == q * d);
    if s >= 0 {
        lemma_fundamental_div_mod_converse(s, d, q, 0);
    } else {
        assert((-q) * d == -(q * d)) by (nonlinear_arith);
        lemma_fundamental_div_mod_converse(-s, d, -q, 0);
    }
    assert(trunc_div(s, d) == q);
}

/// What holds of the window of any time: a time before zero has a window
/// that ends by zero or starts at zero, and every time from zero on that a
/// window holds has that window for its own.
pub proof fn lemma_window_facts(c: ScheduleConfig, time: i64)
    requires
        c.wf(),
        time < i64::MAX,
    ensures
        c.schedule_of(time).chunk_start < c.schedule_of(time).chunk_end,
        time < c.schedule_of(time).chunk_end,
        time >= 0 ==> 0 <= c.schedule_of(time).chunk_start <= time,
        time < 0 ==> c.schedule_of(time).chunk_start <= 0,
        forall|t: i64|
            0 <= t && #[trigger] c.schedule_of(time).holds(t) ==> c.schedule_of(t) == c.schedule_of(
                time,
            ),
{
    lemma_start_bounds(c, time);
    lemma_window_of_start(c, time);
    let w = c.schedule_of(time);
    assert forall|t: i64| 0 <= t && #[trigger] w.holds(t) implies c.schedule_of(t) == w by {
        if time >= 0 {
            lemma_window_is_shared(c, time, t);
        } else {
            let d = c.size();
            let q = (-(time as int)) / d;
            if w.chunk_start < 0 {
                assert(q >= 1) by (nonlinear_arith)
                    requires
                        (-q) * d < 0,
                        d > 0,
                ;
                assert((-q) * d + d <= 0) by (nonlinear_arith)
                    requires
                        q >= 1,
                        d > 0,
                ;
                assert(false);
            }
            assert(w == c.schedule_of(0));
            lemma_window_is_shared(c, 0, t);
        }
    }
}

} // verus!
