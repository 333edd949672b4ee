//! Points and the ordered series that holds them.
//!
//! A measurement's value travels through the library as the 64-bit IEEE-754
//! pattern of the number it stands for, so that two values are the same
//! exactly when their bits are.

use vstd::prelude::*;

verus! {

/// One measurement: a time and the bit pattern of its value.
#[derive(Clone, Copy, Debug, PartialEq, Eq, Structural)]
pub struct DataPoint {
    pub time: i64,
    pub value: u64,
}

/// Whether a 64-bit IEEE-754 pattern is a NaN: every exponent bit set and a
/// mantissa that is not zero, whatever the sign.
pub open spec fn is_nan_bits(bits: u64) -> bool {
    (bits & 0x7fff_ffff_ffff_ffffu64) > 0x7ff0_0000_0000_0000u64
}

impl DataPoint {
    /// Whether the value of this point is a NaN.
    pub fn is_nan(&self) -> (r: bool)
        ensures
            r == is_nan_bits(self.value),
    {
        (self.value & 0x7fff_ffff_ffff_ffffu64) > 0x7ff0_0000_0000_0000u64
    }
}

/// The times of `s` strictly increase.
pub open spec fn ascending(s: Seq<DataPoint>) -> bool {
    forall|i: int, j: int| 0 <= i < j < s.len() ==> (#[trigger] s[i]).time < (#[trigger] s[j]).time
}

/// Some point of `s` has time `t`.
pub open spec fn holds_time(s: Seq<DataPoint>, t: i64) -> bool {
    exists|i: int| 0 <= i < s.len() && (#[trigger] s[i]).time == t
}

/// An index at which `s` has time `t`.
pub open spec fn index_of_time(s: Seq<DataPoint>, t: i64) -> int {
    choose|i: int| 0 <= i < s.len() && (#[trigger] s[i]).time == t
}

/// The mapping from time to value that the points of `s` make.
pub open spec fn as_map(s: Seq<DataPoint>) -> Map<i64, u64> {
    Map::new(|t: i64| holds_time(s, t), |t: i64| s[index_of_time(s, t)].value)
}

/// The entries of `m` whose time lies in the half-open interval from `start`
/// to `stop`.
pub open spec fn within(m: Map<i64, u64>, start: i64, stop: i64) -> Map<i64, u64> {
    m.restrict(Set::new(|t: i64| start <= t < stop))
}

/// In an ascending sequence each point is found under its own time.
pub proof fn lemma_as_map_at(s: Seq<DataPoint>, i: int)
    requires
        ascending(s),
        0 <= i < s.len(),
    ensures
        as_map(s).dom().contains(s[i].time),
        as_map(s)[s[i].time] == s[i].value,
        index_of_time(s, s[i].time) == i,
{
    let t = s[i].time;
    assert(holds_time(s, t));
    let j = index_of_time(s, t);
    assert(0 <= j < s.len() && s[j].time == t);
    if j < i {
        assert(s[j].time < s[i].time);
    }
    if i < j {
        assert(s[i].time < s[j].time);
    }
}

/// Putting a point where its time belongs adds it to the mapping.
pub proof fn lemma_insert_at(s: Seq<DataPoint>, i: int, p: DataPoint)
    requires
        ascending(s),
        0 <= i <= s.len(),
        forall|j: int| 0 <= j < i ==> (#[trigger] s[j]).time < p.time,
        forall|j: int| i <= j < s.len() ==> p.time < (#[trigger] s[j]).time,
    ensures
        ascending(s.insert(i, p)),
        as_map(s.insert(i, p)) == as_map(s).insert(p.time, p.value),
{
    let r = s.insert(i, p);
    assert forall|a: int, b: int| 0 <= a < b < r.len() implies (#[trigger] r[a]).time < (
    #[trigger] r[b]).time by {
        let sa = if a < i { a } else { a - 1 };
        let sb = if b < i { b } else { b - 1 };
        if a != i && b != i {
            assert(r[a] == s[sa] && r[b] == s[sb]);
            assert(s[sa].time < s[sb].time);
        } else if a == i {
            assert(r[b] == s[sb]);
        } else {
            assert(r[a] == s[sa]);
        }
    }
    let target = as_map(s).insert(p.time, p.value);
    assert forall|t: i64| as_map(r).dom().contains(t) <==> target.dom().contains(t) by {
        if holds_time(r, t) {
            let a = index_of_time(r, t);
            if a < i {
                assert(s[a].time == t);
            } else if a > i {
                assert(s[a - 1].time == t);
            }
        }
        if holds_time(s, t) {
            let a = index_of_time(s, t);
            if a < i {
                assert(r[a].time == t);
            } else {
                assert(r[a + 1].time == t);
            }
        }
        if t == p.time {
            assert(r[i].time == t);
        }
    }
    assert forall|t: i64| as_map(r).dom().contains(t) implies as_map(r)[t] == target[t] by {
        let a = index_of_time(r, t);
        lemma_as_map_at(r, a);
        if a < i {
            assert(r[a] == s[a]);
            lemma_as_map_at(s, a);
        } else if a > i {
            assert(r[a] == s[a - 1]);
            lemma_as_map_at(s, a - 1);
        }
    }
    assert(as_map(r) =~= target);
}

/// Replacing a point by one of the same time replaces its value in the
/// mapping.
pub proof fn lemma_update_at(s: Seq<DataPoint>, i: int, p: DataPoint)
    requires
        ascending(s),
        0 <= i < s.len(),
        s[i].time == p.time,
    ensures
        ascending(s.update(i, p)),
        as_map(s.update(i, p)) == as_map(s).insert(p.time, p.value),
{
    let r = s.update(i, p);
    assert forall|a: int, b: int| 0 <= a < b < r.len() implies (#[trigger] r[a]).time < (
    #[trigger] r[b]).time by {
        assert(r[a].time == s[a].time && r[b].time == s[b].time);
    }
    let target = as_map(s).insert(p.time, p.value);
    assert forall|t: i64| as_map(r).dom().contains(t) <==> target.dom().contains(t) by {
        if holds_time(r, t) {
            let a = index_of_time(r, t);
            assert(s[a].time == t);
        }
        if holds_time(s, t) {
            let a = index_of_time(s, t);
            assert(r[a].time == t);
        }
        if t == p.time {
            assert(r[i].time == t);
        }
    }
    assert forall|t: i64| as_map(r).dom().contains(t) implies as_map(r)[t] == target[t] by {
        let a = index_of_time(r, t);
        lemma_as_map_at(r, a);
        if a != i {
            assert(r[a] == s[a]);
            lemma_as_map_at(s, a);
        }
    }
    assert(as_map(r) =~= target);
}

/// A stretch of an ascending sequence holds what lies between its first time
/// and the time that follows its last.
pub proof fn lemma_subrange_within(s: Seq<DataPoint>, lo: int, hi: int, start: i64, stop: i64)
    requires
        ascending(s),
        0 <= lo <= hi <= s.len(),
        forall|j: int| 0 <= j < lo ==> (#[trigger] s[j]).time < start,
        forall|j: int| lo <= j < s.len() ==> start <= (#[trigger] s[j]).time,
        forall|j: int| 0 <= j < hi ==> (#[trigger] s[j]).time < stop,
        forall|j: int| hi <= j < s.len() ==> stop <= (#[trigger] s[j]).time,
    ensures
        ascending(s.subrange(lo, hi)),
        as_map(s.subrange(lo, hi)) == within(as_map(s), start, stop),
{
    let r = s.subrange(lo, hi);
    assert forall|a: int, b: int| 0 <= a < b < r.len() implies (#[trigger] r[a]).time < (
    #[trigger] r[b]).time by {
        assert(r[a] == s[lo + a] && r[b] == s[lo + b]);
    }
    let target = within(as_map(s), start, stop);
    assert forall|t: i64| as_map(r).dom().contains(t) <==> target.dom().contains(t) by {
        if holds_time(r, t) {
            let a = index_of_time(r, t);
            assert(r[a] == s[lo + a]);
            assert(s[lo + a].time == t);
        }
        if holds_time(s, t) && start <= t < stop {
            let a = index_of_time(s, t);
            assert(lo <= a < hi);
            assert(r[a - lo].time == t);
        }
    }
    assert forall|t: i64| as_map(r).dom().contains(t) implies as_map(r)[t] == target[t] by {
        let a = index_of_time(r, t);
        lemma_as_map_at(r, a);
        assert(r[a] == s[lo + a]);
        lemma_as_map_at(s, lo + a);
    }
    assert(as_map(r) =~= target);
}

/// Two ascending sequences that make the same mapping are the same sequence.
pub proof fn lemma_ascending_unique(a: Seq<DataPoint>, b: Seq<DataPoint>)
    requires
        ascending(a),
        ascending(b),
        as_map(a) == as_map(b),
    ensures
        a == b,
    decreases a.len(),
{
    if a.len() == 0 {
        if b.len() > 0 {
            lemma_as_map_at(b, 0);
            assert(holds_time(a, b[0].time));
        }
        assert(a =~= b);
    } else {
        let n = a.len() - 1;
        lemma_as_map_at(a, n);
        assert(holds_time(b, a[n].time));
        let m = b.len() - 1;
        lemma_as_map_at(b, m);
        assert(holds_time(a, b[m].time));
        let ia = index_of_time(a, b[m].time);
        let ib = index_of_time(b, a[n].time);
        if ia < n {
            assert(a[ia].time < a[n].time);
        }
        if ib < m {
            assert(b[ib].time < b[m].time);
        }
        assert(a[n].time == b[m].time);
        assert(a[n].value == b[m].value);
        let a0 = a.subrange(0, n);
        let b0 = b.subrange(0, m);
        let stop = a[n].time;
        lemma_subrange_within(a, 0, n, i64::MIN, stop);
        lemma_subrange_within(b, 0, m, i64::MIN, stop);
        lemma_ascending_unique(a0, b0);
        assert(a =~= a0.push(a[n]));
        assert(b =~= b0.push(b[m]));
    }
}

/// The points of a mapping by ascending time.
pub open spec fn points_of(m: Map<i64, u64>) -> Seq<DataPoint> {
    choose|s: Seq<DataPoint>| ascending(s) && as_map(s) == m
}

/// The points of the mapping that an ascending sequence makes are that
/// sequence.
pub proof fn lemma_points_of_map(s: Seq<DataPoint>)
    requires
        ascending(s),
    ensures
        points_of(as_map(s)) == s,
{
    let r = points_of(as_map(s));
    assert(ascending(s) && as_map(s) == as_map(s));
    lemma_ascending_unique(r, s);
}

/// An ordered mapping from time to value: each time occurs once, and the
/// points are kept by ascending time.
#[derive(Debug)]
pub struct RawSeries {
    data: Vec<DataPoint>,
}

impl View for RawSeries {
    type V = Map<i64, u64>;

    open spec fn view(&self) -> Map<i64, u64> {
        as_map(self.points())
    }
}

impl RawSeries {
    /// The points of the series in the order in which they are kept.
    pub closed spec fn points(&self) -> Seq<DataPoint> {
        self.data@
    }

    /// The points are kept by strictly ascending time.
    pub open spec fn wf(&self) -> bool {
        ascending(self.points())
    }

    /// A series without points.
    pub fn new() -> (r: Self)
        ensures
            r.wf(),
            r.points() == Seq::<DataPoint>::empty(),
            r@ == Map::<i64, u64>::empty(),
    {
        let r = RawSeries { data: Vec::new() };
        assert(r@ =~= Map::<i64, u64>::empty());
        r
    }

    /// The number of points.
    pub fn len(&self) -> (n: usize)
        ensures
            n == self.points().len(),
    {
        self.data.len()
    }

    /// The point at place `i`, counted from the earliest.
    pub fn point(&self, i: usize) -> (p: DataPoint)
        requires
            i < self.points().len(),
        ensures
            p == self.points()[i as int],
    {
        self.data[i]
    }

    /// The place of the first point whose time is not before `time`; the
    /// number of points if there is none.
    pub fn lower_bound(&self, time: i64) -> (i: usize)
        requires
            self.wf(),
        ensures
            i <= self.points().len(),
            forall|j: int| 0 <= j < i ==> (#[trigger] self.points()[j]).time < time,
            forall|j: int| i <= j < self.points().len() ==> time <= (#[trigger] self.points()[j]).time,
    {
        let mut lo: usize = 0;
        let mut hi: usize = self.data.len();
        while lo < hi
            invariant
                self.wf(),
                lo <= hi <= self.data@.len(),
                forall|j: int| 0 <= j < lo ==> (#[trigger] self.data@[j]).time < time,
                forall|j: int| hi <= j < self.data@.len() ==> time <= (#[trigger] self.data@[j]).time,
            decreases hi - lo,
        {
            let mid: usize = lo + (hi - lo) / 2;
            if self.data[mid].time < time {
                assert forall|j: int| 0 <= j < mid + 1 implies (#[trigger] self.data@[j]).time
                    < time by {
                    if j < mid {
                        assert(self.data@[j].time < self.data@[mid as int].time);
                    }
                }
                lo = mid + 1;
            } else {
                assert forall|j: int| mid <= j < self.data@.len() implies time <= (
                #[trigger] self.data@[j]).time by {
                    if mid < j {
                        assert(self.data@[mid as int].time < self.data@[j].time);
                    }
                }
                hi = mid;
            }
        }
        lo
    }

    /// Sets the value at the point's time, whether or not the time was there.
    pub fn insert(&mut self, point: DataPoint)
        requires
            old(self).wf(),
        ensures
            final(self).wf(),
            final(self)@ == old(self)@.insert(point.time, point.value),
    {
        let i = self.lower_bound(point.time);
        if i < self.data.len() && self.data[i].time == point.time {
            proof {
                lemma_update_at(self.data@, i as int, point);
            }
            self.data[i] = point;
        } else {
            proof {
                lemma_insert_at(self.data@, i as int, point);
            }
            self.data.insert(i, point);
        }
    }

    /// The value at `time`, if the series has one.
    pub fn get(&self, time: i64) -> (r: Option<u64>)
        requires
            self.wf(),
        ensures
            r == (if self@.dom().contains(time) {
                Some(self@[time])
            } else {
                None
            }),
    {
        let i = self.lower_bound(time);
        if i < self.data.len() && self.data[i].time == time {
            proof {
                lemma_as_map_at(self.data@, i as int);
            }
            Some(self.data[i].value)
        } else {
            proof {
                if holds_time(self.data@, time) {
                    let j = index_of_time(self.data@, time);
                    assert(self.data@[j].time == time);
                }
            }
            None
        }
    }

    /// A size in bytes that the points would take written out plainly, 16 for
    /// each; the largest `usize` where that does not fit.
    pub fn serial_size_hint(&self) -> (n: usize)
        ensures
            n == (if self.points().len() * 16 <= usize::MAX {
                self.points().len() * 16
            } else {
                usize::MAX as nat
            }),
    {
        let len = self.data.len();
        if len <= usize::MAX / 16 {
            len * 16
        } else {
            usize::MAX
        }
    }

    /// The earliest time, if there is a point.
    pub fn first_time(&self) -> (r: Option<i64>)
        requires
            self.wf(),
        ensures
            match r {
                Some(t) => self@.contains_key(t) && forall|u: i64| #[trigger]
                    self@.contains_key(u) ==> t <= u,
                None => forall|u: i64| !#[trigger] self@.contains_key(u),
            },
            r matches Some(t) ==> self.points().len() > 0 && t == self.points()[0].time,
    {
        if self.data.len() == 0 {
            proof {
                assert forall|u: i64| !self@.dom().contains(u) by {
                    if holds_time(self.data@, u) {
                        let j = index_of_time(self.data@, u);
                        assert(self.data@[j].time == u);
                    }
                }
            }
            None
        } else {
            let t = self.data[0].time;
            proof {
                lemma_as_map_at(self.data@, 0);
                assert forall|u: i64| self@.dom().contains(u) implies t <= u by {
                    let j = index_of_time(self.data@, u);
                    if 0 < j {
                        assert(self.data@[0].time < self.data@[j].time);
                    }
                }
            }
            Some(t)
        }
    }

    /// The latest time, if there is a point.
    pub fn last_time(&self) -> (r: Option<i64>)
        requires
            self.wf(),
        ensures
            match r {
                Some(t) => self@.contains_key(t) && forall|u: i64| #[trigger]
                    self@.contains_key(u) ==> u <= t,
                None => forall|u: i64| !#[trigger] self@.contains_key(u),
            },
            r matches Some(t) ==> self.points().len() > 0 && t == self.points().last().time,
    {
        let n = self.data.len();
        if n == 0 {
            proof {
                assert forall|u: i64| !self@.dom().contains(u) by {
                    if holds_time(self.data@, u) {
                        let j = index_of_time(self.data@, u);
                        assert(self.data@[j].time == u);
                    }
                }
            }
            None
        } else {
            let t = self.data[n - 1].time;
            proof {
                lemma_as_map_at(self.data@, n - 1);
                assert forall|u: i64| self@.dom().contains(u) implies u <= t by {
                    let j = index_of_time(self.data@, u);
                    if j < n - 1 {
                        assert(self.data@[j].time < self.data@[n - 1].time);
                    }
                }
            }
            Some(t)
        }
    }

    /// The points whose time lies in the half-open interval from `start` to
    /// `stop`, as a series of their own.
    pub fn range(&self, start: i64, stop: i64) -> (r: RawSeries)
        requires
            self.wf(),
        ensures
            r.wf(),
            r@ == within(self@, start, stop),
    {
        let lo = self.lower_bound(start);
        let hi = self.lower_bound(stop);
        let mut out: Vec<DataPoint> = Vec::new();
        if lo >= hi {
            proof {
                assert(within(self@, start, stop) =~= Map::<i64, u64>::empty()) by {
                    assert forall|t: i64| !within(self@, start, stop).dom().contains(t) by {
                        if holds_time(self.data@, t) && start <= t < stop {
                            let j = index_of_time(self.data@, t);
                            assert(self.data@[j].time == t);
                        }
                    }
                }
                assert(as_map(out@) =~= Map::<i64, u64>::empty());
            }
            return RawSeries { data: out };
        }
        let mut i: usize = lo;
        while i < hi
            invariant
                lo <= i <= hi <= self.data@.len(),
                out@ == self.data@.subrange(lo as int, i as int),
            decreases hi - i,
        {
            out.push(self.data[i]);
            i += 1;
            assert(out@ =~= self.data@.subrange(lo as int, i as int));
        }
        proof {
            lemma_subrange_within(self.data@, lo as int, hi as int, start, stop);
        }
        RawSeries { data: out }
    }

    /// Takes over every point of `other`; where both have a time, the value
    /// of `other` stays.
    pub fn absorb(&mut self, other: &RawSeries)
        requires
            old(self).wf(),
            other.wf(),
        ensures
            final(self).wf(),
            final(self)@ == old(self)@.union_prefer_right(other@),
    {
        let n = other.data.len();
        let mut i: usize = 0;
        proof {
            assert(as_map(other.data@.subrange(0, 0)) =~= Map::<i64, u64>::empty());
            assert(self@ =~= self@.union_prefer_right(Map::<i64, u64>::empty()));
            lemma_subrange_within(other.data@, 0, 0, i64::MIN, i64::MIN);
        }
        while i < n
            invariant
                n == other.data@.len(),
                i <= n,
                other.wf(),
                self.wf(),
                ascending(other.data@.subrange(0, i as int)),
                self@ == old(self)@.union_prefer_right(as_map(other.data@.subrange(0, i as int))),
            decreases n - i,
        {
            let p = other.data[i];
            proof {
                let before = other.data@.subrange(0, i as int);
                let after = other.data@.subrange(0, i + 1);
                assert(after =~= before.insert(i as int, p));
                assert forall|j: int| 0 <= j < i implies (#[trigger] before[j]).time < p.time by {
                    assert(before[j] == other.data@[j]);
                    assert(other.data@[j].time < other.data@[i as int].time);
                }
                lemma_insert_at(before, i as int, p);
                assert(old(self)@.union_prefer_right(as_map(before)).insert(p.time, p.value)
                    =~= old(self)@.union_prefer_right(as_map(after)));
            }
            self.insert(p);
            i += 1;
        }
        proof {
            assert(other.data@.subrange(0, n as int) =~= other.data@);
        }
    }

    /// The points from the earliest to the latest.
    pub fn to_vec(&self) -> (v: Vec<DataPoint>)
        ensures
            v@ == self.points(),
    {
        let mut out: Vec<DataPoint> = Vec::new();
        let mut i: usize = 0;
        while i < self.data.len()
            invariant
                i <= self.data@.len(),
                out@ == self.data@.subrange(0, i as int),
            decreases self.data@.len() - i,
        {
            out.push(self.data[i]);
            i += 1;
            assert(out@ =~= self.data@.subrange(0, i as int));
        }
        assert(out@ =~= self.data@);
        out
    }
}

impl Clone for RawSeries {
    fn clone(&self) -> (r: Self)
        ensures
            r.points() == self.points(),
            r@ == self@,
    {
        RawSeries { data: self.to_vec() }
    }
}

impl Default for RawSeries {
    fn default() -> (r: Self)
        ensures
            r.wf(),
            r@ == Map::<i64, u64>::empty(),
    {
        RawSeries::new()
    }
}

impl PartialEq for RawSeries {
    fn eq(&self, other: &Self) -> (r: bool) {
        let n = self.data.len();
        if n != other.data.len() {
            return false;
        }
        let mut i: usize = 0;
        while i < n
            invariant
                n == self.data@.len(),
                n == other.data@.len(),
                i <= n,
                forall|j: int| 0 <= j < i ==> self.data@[j] == other.data@[j],
            decreases n - i,
        {
            let a = self.data[i];
            let b = other.data[i];
            if a.time != b.time || a.value != b.value {
                return false;
            }
            i += 1;
        }
        assert(self.data@ =~= other.data@);
        true
    }
}

impl vstd::std_specs::cmp::PartialEqSpecImpl for RawSeries {
    open spec fn obeys_eq_spec() -> bool {
        true
    }

    open spec fn eq_spec(&self, other: &Self) -> bool {
        self.points() == other.points()
    }
}

} // verus!
