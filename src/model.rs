//! Intervals, points and tiers, with the queries and edits local to one tier.
use vstd::prelude::*;

use crate::time::Time;

verus! {

/// The kinds of failure the library reports, each with a readable detail.
#[derive(Debug)]
pub enum TextGridError {
    /// The byte source or sink failed.
    Io(String),
    /// Input bytes do not follow the format.
    MalformedInput(String),
    /// A document breaks one of its time-consistency rules.
    ValidationFailure(String),
    /// A time or a pair of times is not acceptable for the operation.
    InvalidRange(String),
    /// The operation does not apply to this kind of tier.
    KindMismatch(String),
    /// A value falls outside the bounds of its tier.
    OutOfBounds(String),
    /// An index names no element.
    IndexOutOfRange(String),
    /// A tier (or a recorded element) could not be found.
    NotFound(String),
    /// The undo history is empty.
    NothingToUndo,
    /// Nothing has been undone since the last edit.
    NothingToRedo,
}

pub fn err_msg(s: &str) -> (r: String)
    ensures
        r@ == s@,
{
    s.to_owned()
}

/// Type of a tier, either interval-based or point-based.
#[derive(Clone, Copy, Debug, PartialEq, Eq, Structural)]
pub enum TierType {
    IntervalTier,
    PointTier,
}

/// A time interval `[xmin, xmax]` with its label.
#[derive(Debug)]
pub struct Interval {
    pub xmin: Time,
    pub xmax: Time,
    pub text: String,
}

/// A time-stamped mark.
#[derive(Debug)]
pub struct Point {
    pub time: Time,
    pub mark: String,
}

/// A named timeline holding intervals or points, according to its kind.
#[derive(Debug)]
pub struct Tier {
    pub name: String,
    pub tier_type: TierType,
    pub xmin: Time,
    pub xmax: Time,
    pub intervals: Vec<Interval>,
    pub points: Vec<Point>,
}

/// The value of an interval: its bounds and the characters of its label.
pub struct IntervalV {
    pub xmin: Time,
    pub xmax: Time,
    pub text: Seq<char>,
}

/// The value of a point.
pub struct PointV {
    pub time: Time,
    pub mark: Seq<char>,
}

/// The value of a tier.
pub struct TierV {
    pub name: Seq<char>,
    pub tier_type: TierType,
    pub xmin: Time,
    pub xmax: Time,
    pub intervals: Seq<IntervalV>,
    pub points: Seq<PointV>,
}

impl View for Interval {
    type V = IntervalV;

    open spec fn view(&self) -> IntervalV {
        IntervalV { xmin: self.xmin, xmax: self.xmax, text: self.text@ }
    }
}

impl View for Point {
    type V = PointV;

    open spec fn view(&self) -> PointV {
        PointV { time: self.time, mark: self.mark@ }
    }
}

pub open spec fn intervals_view(v: Seq<Interval>) -> Seq<IntervalV> {
    v.map_values(|i: Interval| i@)
}

pub open spec fn points_view(v: Seq<Point>) -> Seq<PointV> {
    v.map_values(|p: Point| p@)
}

impl View for Tier {
    type V = TierV;

    open spec fn view(&self) -> TierV {
        TierV {
            name: self.name@,
            tier_type: self.tier_type,
            xmin: self.xmin,
            xmax: self.xmax,
            intervals: intervals_view(self.intervals@),
            points: points_view(self.points@),
        }
    }
}

impl Clone for Interval {
    fn clone(&self) -> (r: Self)
        ensures
            r@ == self@,
    {
        Interval { xmin: self.xmin, xmax: self.xmax, text: self.text.clone() }
    }
}

impl Clone for Point {
    fn clone(&self) -> (r: Self)
        ensures
            r@ == self@,
    {
        Point { time: self.time, mark: self.mark.clone() }
    }
}

pub fn clone_intervals(v: &Vec<Interval>) -> (r: Vec<Interval>)
    ensures
        intervals_view(r@) == intervals_view(v@),
{
    let mut r: Vec<Interval> = Vec::new();
    let mut i: usize = 0;
    while i < v.len()
        invariant
            i <= v.len(),
            r@.len() == i,
            forall|j: int| 0 <= j < i ==> (#[trigger] r@[j])@ == v@[j]@,
        decreases v.len() - i,
    {
        r.push(v[i].clone());
        i = i + 1;
    }
    assert(intervals_view(r@) =~= intervals_view(v@));
    r
}

pub fn clone_points(v: &Vec<Point>) -> (r: Vec<Point>)
    ensures
        points_view(r@) == points_view(v@),
{
    let mut r: Vec<Point> = Vec::new();
    let mut i: usize = 0;
    while i < v.len()
        invariant
            i <= v.len(),
            r@.len() == i,
            forall|j: int| 0 <= j < i ==> (#[trigger] r@[j])@ == v@[j]@,
        decreases v.len() - i,
    {
        r.push(v[i].clone());
        i = i + 1;
    }
    assert(points_view(r@) =~= points_view(v@));
    r
}

impl Clone for Tier {
    fn clone(&self) -> (r: Self)
        ensures
            r@ == self@,
    {
        Tier {
            name: self.name.clone(),
            tier_type: self.tier_type,
            xmin: self.xmin,
            xmax: self.xmax,
            intervals: clone_intervals(&self.intervals),
            points: clone_points(&self.points),
        }
    }
}

pub open spec fn unchanged_intervals(iv: IntervalV, xmin: Time, xmax: Time) -> IntervalV {
    IntervalV { xmin, xmax, text: iv.text }
}

/// `p` is where an interval starting at `t` goes in `s`: after every interval
/// that starts no later, before the first that starts later.
pub open spec fn interval_slot(s: Seq<IntervalV>, t: Time, p: int) -> bool {
    &&& 0 <= p <= s.len()
    &&& forall|j: int| 0 <= j < p ==> (#[trigger] s[j]).xmin.val() <= t.val()
    &&& p < s.len() ==> s[p].xmin.val() > t.val()
}

/// The same rule for points, ordered by time.
pub open spec fn point_slot(s: Seq<PointV>, t: Time, p: int) -> bool {
    &&& 0 <= p <= s.len()
    &&& forall|j: int| 0 <= j < p ==> (#[trigger] s[j]).time.val() <= t.val()
    &&& p < s.len() ==> s[p].time.val() > t.val()
}

/// Sweeps left to right from `cur`, absorbing each following interval that
/// starts exactly where `cur` ends and carries the same text.
pub open spec fn coalesce(cur: IntervalV, rest: Seq<IntervalV>) -> Seq<IntervalV>
    decreases rest.len(),
{
    if rest.len() == 0 {
        seq![cur]
    } else if cur.xmax.val() == rest[0].xmin.val() && cur.text == rest[0].text {
        coalesce(IntervalV { xmin: cur.xmin, xmax: rest[0].xmax, text: cur.text }, rest.drop_first())
    } else {
        seq![cur] + coalesce(rest[0], rest.drop_first())
    }
}

/// The intervals after merging equal-text neighbours that touch.
pub open spec fn merged_intervals(s: Seq<IntervalV>) -> Seq<IntervalV> {
    if s.len() <= 1 {
        s
    } else {
        coalesce(s[0], s.drop_first())
    }
}

pub open spec fn covers(iv: IntervalV, t: Time) -> bool {
    iv.xmin.val() <= t.val() && t.val() <= iv.xmax.val()
}

pub open spec fn at_time(p: PointV, t: Time) -> bool {
    p.time.val() == t.val()
}

/// `needle` occurs as a contiguous run inside `hay`.
pub open spec fn occurs_in(needle: Seq<u8>, hay: Seq<u8>) -> bool {
    exists|i: int| 0 <= i && i + needle.len() <= hay.len() && #[trigger] hay.subrange(i, i + needle.len()) == needle
}

/// Label containment, judged on the UTF-8 encodings (as `str::contains` does).
pub open spec fn text_contains(text: Seq<char>, needle: Seq<char>) -> bool {
    occurs_in(vstd::utf8::encode_utf8(needle), vstd::utf8::encode_utf8(text))
}

pub open spec fn filter_covering(s: Seq<IntervalV>, t: Time) -> Seq<IntervalV> {
    s.filter(|iv: IntervalV| covers(iv, t))
}

pub open spec fn filter_at_time(s: Seq<PointV>, t: Time) -> Seq<PointV> {
    s.filter(|p: PointV| at_time(p, t))
}

pub open spec fn filter_text(s: Seq<IntervalV>, needle: Seq<char>) -> Seq<IntervalV> {
    s.filter(|iv: IntervalV| text_contains(iv.text, needle))
}

/// Whether `needle` occurs as a contiguous run of bytes inside `hay`.
pub fn bytes_contain(hay: &[u8], needle: &[u8]) -> (r: bool)
    ensures
        r == occurs_in(needle@, hay@),
{
    if needle.len() > hay.len() {
        return false;
    }
    let last: usize = hay.len() - needle.len();
    let mut i: usize = 0;
    while i <= last
        invariant
            last + needle.len() == hay.len(),
            i <= last + 1,
            forall|k: int| 0 <= k < i ==> #[trigger] hay@.subrange(k, k + needle.len()) != needle@,
        decreases last + 1 - i,
    {
        let mut j: usize = 0;
        let mut same = true;
        while j < needle.len()
            invariant
                i <= last,
                last + needle.len() == hay.len(),
                j <= needle.len(),
                same == (forall|m: int| 0 <= m < j ==> hay@[i + m] == needle@[m]),
            decreases needle.len() - j,
        {
            if hay[i + j] != needle[j] {
                same = false;
            }
            j = j + 1;
        }
        if same {
            assert(hay@.subrange(i as int, i + needle.len()) =~= needle@);
            return true;
        }
        assert(hay@.subrange(i as int, i + needle.len()) != needle@) by {
            let m = choose|m: int| 0 <= m < needle.len() && hay@[i + m] != needle@[m];
            assert(hay@.subrange(i as int, i + needle.len())[m] != needle@[m]);
        }
        i = i + 1;
    }
    false
}

impl Interval {
    /// Splits at `time`, which must lie strictly inside the interval; both
    /// halves keep the label.
    pub fn split(&self, time: Time) -> (r: Result<(Interval, Interval), TextGridError>)
        ensures
            (self.xmin.val() < time.val() && time.val() < self.xmax.val()) <==> r is Ok,
            r is Err ==> r matches Err(TextGridError::InvalidRange(_)),
            r matches Ok((a, b)) ==> a@ == unchanged_intervals(self@, self.xmin, time)
                && b@ == unchanged_intervals(self@, time, self.xmax),
    {
        if time.le(&self.xmin) || self.xmax.le(&time) {
            return Err(TextGridError::InvalidRange(err_msg("split time must lie strictly inside the interval")));
        }
        Ok((
            Interval { xmin: self.xmin, xmax: time, text: self.text.clone() },
            Interval { xmin: time, xmax: self.xmax, text: self.text.clone() },
        ))
    }
}

impl Tier {
    /// Where an interval starting at `t` belongs among this tier's intervals.
    pub fn interval_slot_of(&self, t: &Time) -> (p: usize)
        ensures
            interval_slot(self@.intervals, *t, p as int),
    {
        let mut i: usize = 0;
        while i < self.intervals.len()
            invariant
                i <= self.intervals.len(),
                forall|j: int| 0 <= j < i ==> (#[trigger] self.intervals@[j]).xmin.val() <= t.val(),
            decreases self.intervals.len() - i,
        {
            if t.lt(&self.intervals[i].xmin) {
                return i;
            }
            i = i + 1;
        }
        i
    }

    /// Where a point at `t` belongs among this tier's points.
    pub fn point_slot_of(&self, t: &Time) -> (p: usize)
        ensures
            point_slot(self@.points, *t, p as int),
    {
        let mut i: usize = 0;
        while i < self.points.len()
            invariant
                i <= self.points.len(),
                forall|j: int| 0 <= j < i ==> (#[trigger] self.points@[j]).time.val() <= t.val(),
            decreases self.points.len() - i,
        {
            if t.lt(&self.points[i].time) {
                return i;
            }
            i = i + 1;
        }
        i
    }

    /// Adds an interval in start order and reports where it went.
    pub fn insert_interval(&mut self, interval: Interval) -> (r: Result<usize, TextGridError>)
        ensures
            old(self).tier_type != TierType::IntervalTier ==> r matches Err(TextGridError::KindMismatch(_)),
            old(self).tier_type == TierType::IntervalTier && (interval.xmin.val() < old(self).xmin.val()
                || interval.xmax.val() > old(self).xmax.val()) ==> r matches Err(TextGridError::OutOfBounds(_)),
            r is Err ==> final(self)@ == old(self)@,
            r is Ok <==> (old(self).tier_type == TierType::IntervalTier && old(self).xmin.val() <= interval.xmin.val()
                && interval.xmax.val() <= old(self).xmax.val()),
            r matches Ok(p) ==> interval_slot(old(self)@.intervals, interval.xmin, p as int)
                && final(self)@ == (TierV { intervals: old(self)@.intervals.insert(p as int, interval@), ..old(self)@ }),
    {
        if self.tier_type != TierType::IntervalTier {
            return Err(TextGridError::KindMismatch(err_msg("cannot add an interval to a point tier")));
        }
        if interval.xmin.lt(&self.xmin) || self.xmax.lt(&interval.xmax) {
            return Err(TextGridError::OutOfBounds(err_msg("interval out of tier bounds")));
        }
        let p = self.interval_slot_of(&interval.xmin);
        let ghost v = interval@;
        self.intervals.insert(p, interval);
        proof {
            assert(intervals_view(self.intervals@) =~= intervals_view(old(self).intervals@).insert(p as int, v));
        }
        Ok(p)
    }

    /// Adds a point in time order and reports where it went.
    pub fn insert_point(&mut self, point: Point) -> (r: Result<usize, TextGridError>)
        ensures
            old(self).tier_type != TierType::PointTier ==> r matches Err(TextGridError::KindMismatch(_)),
            old(self).tier_type == TierType::PointTier && (point.time.val() < old(self).xmin.val()
                || point.time.val() > old(self).xmax.val()) ==> r matches Err(TextGridError::OutOfBounds(_)),
            r is Err ==> final(self)@ == old(self)@,
            r is Ok <==> (old(self).tier_type == TierType::PointTier && old(self).xmin.val() <= point.time.val()
                && point.time.val() <= old(self).xmax.val()),
            r matches Ok(p) ==> point_slot(old(self)@.points, point.time, p as int)
                && final(self)@ == (TierV { points: old(self)@.points.insert(p as int, point@), ..old(self)@ }),
    {
        if self.tier_type != TierType::PointTier {
            return Err(TextGridError::KindMismatch(err_msg("cannot add a point to an interval tier")));
        }
        if point.time.lt(&self.xmin) || self.xmax.lt(&point.time) {
            return Err(TextGridError::OutOfBounds(err_msg("point out of tier bounds")));
        }
        let p = self.point_slot_of(&point.time);
        let ghost v = point@;
        self.points.insert(p, point);
        proof {
            assert(points_view(self.points@) =~= points_view(old(self).points@).insert(p as int, v));
        }
        Ok(p)
    }

    /// Adds an interval to an interval tier, keeping start order.
    pub fn add_interval(&mut self, interval: Interval) -> (r: Result<(), TextGridError>)
        ensures
            old(self).tier_type != TierType::IntervalTier ==> r matches Err(TextGridError::KindMismatch(_)),
            old(self).tier_type == TierType::IntervalTier && (interval.xmin.val() < old(self).xmin.val()
                || interval.xmax.val() > old(self).xmax.val()) ==> r matches Err(TextGridError::OutOfBounds(_)),
            r is Err ==> final(self)@ == old(self)@,
            r is Ok <==> (old(self).tier_type == TierType::IntervalTier && old(self).xmin.val() <= interval.xmin.val()
                && interval.xmax.val() <= old(self).xmax.val()),
            r is Ok ==> exists|p: int| interval_slot(old(self)@.intervals, interval.xmin, p)
                && final(self)@ == (TierV { intervals: old(self)@.intervals.insert(p, interval@), ..old(self)@ }),
    {
        match self.insert_interval(interval) {
            Ok(_) => Ok(()),
            Err(e) => Err(e),
        }
    }

    /// Adds a point to a point tier, keeping time order.
    pub fn add_point(&mut self, point: Point) -> (r: Result<(), TextGridError>)
        ensures
            old(self).tier_type != TierType::PointTier ==> r matches Err(TextGridError::KindMismatch(_)),
            old(self).tier_type == TierType::PointTier && (point.time.val() < old(self).xmin.val()
                || point.time.val() > old(self).xmax.val()) ==> r matches Err(TextGridError::OutOfBounds(_)),
            r is Err ==> final(self)@ == old(self)@,
            r is Ok <==> (old(self).tier_type == TierType::PointTier && old(self).xmin.val() <= point.time.val()
                && point.time.val() <= old(self).xmax.val()),
            r is Ok ==> exists|p: int| point_slot(old(self)@.points, point.time, p)
                && final(self)@ == (TierV { points: old(self)@.points.insert(p, point@), ..old(self)@ }),
    {
        match self.insert_point(point) {
            Ok(_) => Ok(()),
            Err(e) => Err(e),
        }
    }

    /// Removes and returns the interval at `index`.
    pub fn remove_interval(&mut self, index: usize) -> (r: Result<Interval, TextGridError>)
        ensures
            old(self).tier_type != TierType::IntervalTier ==> r matches Err(TextGridError::KindMismatch(_)),
            old(self).tier_type == TierType::IntervalTier && index >= old(self).intervals.len()
                ==> r matches Err(TextGridError::IndexOutOfRange(_)),
            r is Err ==> final(self)@ == old(self)@,
            r is Ok <==> (old(self).tier_type == TierType::IntervalTier && index < old(self).intervals.len()),
            r matches Ok(iv) ==> iv@ == old(self)@.intervals[index as int]
                && final(self)@ == (TierV { intervals: old(self)@.intervals.remove(index as int), ..old(self)@ }),
    {
        if self.tier_type != TierType::IntervalTier {
            return Err(TextGridError::KindMismatch(err_msg("not an interval tier")));
        }
        if index >= self.intervals.len() {
            return Err(TextGridError::IndexOutOfRange(err_msg("interval index out of range")));
        }
        let iv = self.intervals.remove(index);
        proof {
            assert(intervals_view(self.intervals@) =~= intervals_view(old(self).intervals@).remove(index as int));
        }
        Ok(iv)
    }

    /// Removes and returns the point at `index`.
    pub fn remove_point(&mut self, index: usize) -> (r: Result<Point, TextGridError>)
        ensures
            old(self).tier_type != TierType::PointTier ==> r matches Err(TextGridError::KindMismatch(_)),
            old(self).tier_type == TierType::PointTier && index >= old(self).points.len()
                ==> r matches Err(TextGridError::IndexOutOfRange(_)),
            r is Err ==> final(self)@ == old(self)@,
            r is Ok <==> (old(self).tier_type == TierType::PointTier && index < old(self).points.len()),
            r matches Ok(pt) ==> pt@ == old(self)@.points[index as int]
                && final(self)@ == (TierV { points: old(self)@.points.remove(index as int), ..old(self)@ }),
    {
        if self.tier_type != TierType::PointTier {
            return Err(TextGridError::KindMismatch(err_msg("not a point tier")));
        }
        if index >= self.points.len() {
            return Err(TextGridError::IndexOutOfRange(err_msg("point index out of range")));
        }
        let pt = self.points.remove(index);
        proof {
            assert(points_view(self.points@) =~= points_view(old(self).points@).remove(index as int));
        }
        Ok(pt)
    }

    /// Replaces the interval at `index` by its two halves around `time`.
    pub fn split_interval(&mut self, index: usize, time: Time) -> (r: Result<(Interval, Interval), TextGridError>)
        ensures
            old(self).tier_type != TierType::IntervalTier ==> r matches Err(TextGridError::KindMismatch(_)),
            old(self).tier_type == TierType::IntervalTier && index >= old(self).intervals.len()
                ==> r matches Err(TextGridError::IndexOutOfRange(_)),
            old(self).tier_type == TierType::IntervalTier && index < old(self).intervals.len()
                && !(old(self).intervals@[index as int].xmin.val() < time.val()
                && time.val() < old(self).intervals@[index as int].xmax.val())
                ==> r matches Err(TextGridError::InvalidRange(_)),
            r is Err ==> final(self)@ == old(self)@,
            r is Ok <==> (old(self).tier_type == TierType::IntervalTier && index < old(self).intervals.len()
                && old(self).intervals@[index as int].xmin.val() < time.val()
                && time.val() < old(self).intervals@[index as int].xmax.val()),
            r matches Ok((a, b)) ==> {
                let orig = old(self)@.intervals[index as int];
                &&& index < old(self).intervals.len()
                &&& a@ == unchanged_intervals(orig, orig.xmin, time)
                &&& b@ == unchanged_intervals(orig, time, orig.xmax)
                &&& final(self)@ == (TierV {
                    intervals: old(self)@.intervals.update(index as int, a@).insert(index + 1, b@),
                    ..old(self)@
                })
            },
    {
        if self.tier_type != TierType::IntervalTier {
            return Err(TextGridError::KindMismatch(err_msg("not an interval tier")));
        }
        if index >= self.intervals.len() {
            return Err(TextGridError::IndexOutOfRange(err_msg("interval index out of range")));
        }
        let (left, right) = match self.intervals[index].split(time) {
            Ok(halves) => halves,
            Err(e) => {
                return Err(e);
            },
        };
        let ghost lv = left@;
        let ghost rv = right@;
        self.intervals.set(index, left.clone());
        self.intervals.insert(index + 1, right.clone());
        proof {
            assert(intervals_view(self.intervals@) =~= intervals_view(old(self).intervals@).update(
                index as int,
                lv,
            ).insert(index + 1, rv));
        }
        Ok((left, right))
    }

    /// Renames the tier and returns the previous name.
    pub fn rename(&mut self, new_name: String) -> (r: String)
        ensures
            r@ == old(self)@.name,
            final(self)@ == (TierV { name: new_name@, ..old(self)@ }),
    {
        let previous = self.name.clone();
        self.name = new_name;
        previous
    }
}

pub proof fn lemma_filter_step<A>(s: Seq<A>, i: int, f: spec_fn(A) -> bool)
    requires
        0 <= i < s.len(),
    ensures
        s.subrange(0, i + 1).filter(f) == (if f(s[i]) {
            s.subrange(0, i).filter(f).push(s[i])
        } else {
            s.subrange(0, i).filter(f)
        }),
{
    let t = s.subrange(0, i + 1);
    assert(t.drop_last() =~= s.subrange(0, i));
    assert(t.last() == s[i]);
    assert(t.len() > 0);
    reveal_with_fuel(Seq::filter, 1);
}

impl Tier {
    /// Puts the intervals in start order, then merges every run of touching,
    /// equal-text intervals into one; returns the intervals as they were
    /// before. Point tiers, and interval tiers with fewer than two
    /// intervals, are left as they are.
    pub fn merge_intervals(&mut self) -> (r: Result<Vec<Interval>, TextGridError>)
        ensures
            r matches Ok(before) && intervals_view(before@) == old(self)@.intervals,
            old(self).tier_type == TierType::IntervalTier ==> final(self)@ == (TierV {
                intervals: merged_intervals(sort_by_start(old(self)@.intervals)),
                ..old(self)@
            }),
            old(self).tier_type != TierType::IntervalTier ==> final(self)@ == old(self)@,
    {
        let before = clone_intervals(&self.intervals);
        if self.tier_type != TierType::IntervalTier || self.intervals.len() <= 1 {
            proof {
                if self.tier_type == TierType::IntervalTier {
                    lemma_sort_short(self@.intervals);
                }
            }
            return Ok(before);
        }
        let none: Vec<Interval> = Vec::new();
        let sorted = sorted_union(&self.intervals, &none);
        assert(intervals_view(none@) =~= Seq::<IntervalV>::empty());
        assert(self@.intervals + Seq::<IntervalV>::empty() =~= self@.intervals);
        let ghost s = intervals_view(sorted@);
        let n = sorted.len();
        assert(s.len() == self@.intervals.len()) by {
            lemma_sort_len(self@.intervals);
        }
        let mut merged: Vec<Interval> = Vec::new();
        let mut current = sorted[0].clone();
        let mut i: usize = 1;
        assert(s.subrange(1, n as int) =~= s.drop_first());
        while i < n
            invariant
                1 <= i <= n,
                n == sorted.len(),
                s == intervals_view(sorted@),
                self@ == old(self)@,
                intervals_view(merged@) + coalesce(current@, s.subrange(i as int, n as int))
                    == coalesce(s[0], s.drop_first()),
            decreases n - i,
        {
            let ghost rest = s.subrange(i as int, n as int);
            assert(rest.drop_first() =~= s.subrange(i + 1, n as int));
            assert(rest[0] == sorted@[i as int]@);
            let next = &sorted[i];
            if current.xmax.same(&next.xmin) && current.text == next.text {
                current.xmax = next.xmax;
            } else {
                let ghost m0 = intervals_view(merged@);
                let ghost c0 = current@;
                merged.push(current);
                current = next.clone();
                assert(intervals_view(merged@) =~= m0.push(c0));
                assert(m0 + (seq![c0] + coalesce(rest[0], rest.drop_first())) =~= m0.push(c0) + coalesce(
                    rest[0],
                    rest.drop_first(),
                ));
            }
            i = i + 1;
        }
        let ghost m0 = intervals_view(merged@);
        let ghost c0 = current@;
        merged.push(current);
        assert(intervals_view(merged@) =~= m0.push(c0));
        assert(s.subrange(n as int, n as int) =~= Seq::<IntervalV>::empty());
        assert(m0 + seq![c0] =~= m0.push(c0));
        self.intervals = merged;
        Ok(before)
    }

    /// The intervals that contain `time`, ends included (none for a point tier).
    pub fn find_intervals_by_time(&self, time: Time) -> (r: Vec<Interval>)
        ensures
            intervals_view(r@) == (if self.tier_type == TierType::IntervalTier {
                filter_covering(self@.intervals, time)
            } else {
                Seq::empty()
            }),
    {
        let mut r: Vec<Interval> = Vec::new();
        if self.tier_type != TierType::IntervalTier {
            assert(intervals_view(r@) =~= Seq::<IntervalV>::empty());
            return r;
        }
        let ghost s = self@.intervals;
        let mut i: usize = 0;
        while i < self.intervals.len()
            invariant
                i <= self.intervals.len(),
                s == self@.intervals,
                intervals_view(r@) == filter_covering(s.subrange(0, i as int), time),
            decreases self.intervals.len() - i,
        {
            proof {
                lemma_filter_step(s, i as int, |iv: IntervalV| covers(iv, time));
            }
            let iv = &self.intervals[i];
            if iv.xmin.le(&time) && time.le(&iv.xmax) {
                let ghost r0 = intervals_view(r@);
                r.push(iv.clone());
                assert(intervals_view(r@) =~= r0.push(iv@));
            }
            i = i + 1;
        }
        assert(s.subrange(0, i as int) =~= s);
        r
    }

    /// The points placed exactly at `time` (none for an interval tier).
    pub fn find_points_by_time(&self, time: Time) -> (r: Vec<Point>)
        ensures
            points_view(r@) == (if self.tier_type == TierType::PointTier {
                filter_at_time(self@.points, time)
            } else {
                Seq::empty()
            }),
    {
        let mut r: Vec<Point> = Vec::new();
        if self.tier_type != TierType::PointTier {
            assert(points_view(r@) =~= Seq::<PointV>::empty());
            return r;
        }
        let ghost s = self@.points;
        let mut i: usize = 0;
        while i < self.points.len()
            invariant
                i <= self.points.len(),
                s == self@.points,
                points_view(r@) == filter_at_time(s.subrange(0, i as int), time),
            decreases self.points.len() - i,
        {
            proof {
                lemma_filter_step(s, i as int, |p: PointV| at_time(p, time));
            }
            let pt = &self.points[i];
            if pt.time.same(&time) {
                let ghost r0 = points_view(r@);
                r.push(pt.clone());
                assert(points_view(r@) =~= r0.push(pt@));
            }
            i = i + 1;
        }
        assert(s.subrange(0, i as int) =~= s);
        r
    }

    /// The intervals whose label contains `text` (none for a point tier).
    pub fn find_intervals_by_text(&self, text: &str) -> (r: Vec<Interval>)
        ensures
            intervals_view(r@) == (if self.tier_type == TierType::IntervalTier {
                filter_text(self@.intervals, text@)
            } else {
                Seq::empty()
            }),
    {
        let mut r: Vec<Interval> = Vec::new();
        if self.tier_type != TierType::IntervalTier {
            assert(intervals_view(r@) =~= Seq::<IntervalV>::empty());
            return r;
        }
        let ghost s = self@.intervals;
        let needle = text.as_bytes();
        let mut i: usize = 0;
        while i < self.intervals.len()
            invariant
                i <= self.intervals.len(),
                s == self@.intervals,
                needle@ == vstd::utf8::encode_utf8(text@),
                intervals_view(r@) == filter_text(s.subrange(0, i as int), text@),
            decreases self.intervals.len() - i,
        {
            proof {
                lemma_filter_step(s, i as int, |iv: IntervalV| text_contains(iv.text, text@));
            }
            let iv = &self.intervals[i];
            if bytes_contain(iv.text.as_str().as_bytes(), needle) {
                let ghost r0 = intervals_view(r@);
                r.push(iv.clone());
                assert(intervals_view(r@) =~= r0.push(iv@));
            }
            i = i + 1;
        }
        assert(s.subrange(0, i as int) =~= s);
        r
    }
}

/// Relies on `String::from_utf8`: it accepts exactly the valid UTF-8 byte
/// strings and returns the text they encode.
#[verifier::external_body]
pub(crate) fn string_from_utf8(b: Vec<u8>) -> (r: Option<String>)
    ensures
        r is Some <==> vstd::utf8::valid_utf8(b@),
        r matches Some(s) ==> s@ == vstd::utf8::decode_utf8(b@),
{
    String::from_utf8(b).ok()
}

pub open spec fn slot_of_interval(s: Seq<IntervalV>, t: Time) -> int {
    choose|p: int| interval_slot(s, t, p)
}

pub proof fn lemma_interval_slot_unique(s: Seq<IntervalV>, t: Time, p: int)
    requires
        interval_slot(s, t, p),
    ensures
        slot_of_interval(s, t) == p,
{
    let c = slot_of_interval(s, t);
    assert(interval_slot(s, t, c));
    if c < p {
        assert(s[c].xmin.val() <= t.val());
    }
    if p < c {
        assert(s[p].xmin.val() <= t.val());
    }
}

/// Where an interval starting at `t` belongs in `v`.
pub fn slot_in(v: &Vec<Interval>, t: &Time) -> (p: usize)
    ensures
        interval_slot(intervals_view(v@), *t, p as int),
{
    let mut i: usize = 0;
    while i < v.len()
        invariant
            i <= v.len(),
            forall|j: int| 0 <= j < i ==> (#[trigger] v@[j]).xmin.val() <= t.val(),
        decreases v.len() - i,
    {
        if t.lt(&v[i].xmin) {
            return i;
        }
        i = i + 1;
    }
    i
}

/// The intervals in start order; among equal starts, earlier ones first.
pub open spec fn sort_by_start(s: Seq<IntervalV>) -> Seq<IntervalV>
    decreases s.len(),
{
    if s.len() == 0 {
        s
    } else {
        let r = sort_by_start(s.drop_last());
        r.insert(slot_of_interval(r, s.last().xmin), s.last())
    }
}

/// Adds the intervals of `v`, one at a time, each after those that start
/// no later.
fn insert_all(r: &mut Vec<Interval>, v: &Vec<Interval>, Ghost(done): Ghost<Seq<IntervalV>>)
    requires
        intervals_view(old(r)@) == sort_by_start(done),
    ensures
        intervals_view(final(r)@) == sort_by_start(done + intervals_view(v@)),
{
    let ghost c = done + intervals_view(v@);
    let mut j: usize = 0;
    assert(c.subrange(0, done.len() as int) =~= done);
    while j < v.len()
        invariant
            j <= v.len(),
            c == done + intervals_view(v@),
            intervals_view(r@) == sort_by_start(c.subrange(0, done.len() + j)),
        decreases v.len() - j,
    {
        let e = v[j].clone();
        assert(e@ == c[done.len() + j]);
        let p = slot_in(r, &e.xmin);
        let ghost rv = intervals_view(r@);
        proof {
            lemma_interval_slot_unique(rv, e.xmin, p as int);
            let sub = c.subrange(0, done.len() + j + 1);
            assert(sub.drop_last() =~= c.subrange(0, done.len() + j));
            assert(sub.last() == e@);
        }
        let ghost ev = e@;
        r.insert(p, e);
        assert(intervals_view(r@) =~= rv.insert(p as int, ev));
        j = j + 1;
    }
    assert(c.subrange(0, done.len() + v.len()) =~= c);
}

/// The intervals of both tiers together, in start order.
pub fn sorted_union(a: &Vec<Interval>, b: &Vec<Interval>) -> (r: Vec<Interval>)
    ensures
        intervals_view(r@) == sort_by_start(intervals_view(a@) + intervals_view(b@)),
{
    let mut r: Vec<Interval> = Vec::new();
    assert(intervals_view(r@) =~= Seq::<IntervalV>::empty());
    assert(Seq::<IntervalV>::empty() + intervals_view(a@) =~= intervals_view(a@));
    insert_all(&mut r, a, Ghost(Seq::empty()));
    insert_all(&mut r, b, Ghost(intervals_view(a@)));
    r
}

pub proof fn lemma_sort_short(s: Seq<IntervalV>)
    requires
        s.len() <= 1,
    ensures
        sort_by_start(s) == s,
{
    if s.len() == 1 {
        let e = Seq::<IntervalV>::empty();
        assert(s.drop_last() =~= e);
        assert(sort_by_start(e) == e);
        assert(sort_by_start(s) == sort_by_start(e).insert(slot_of_interval(sort_by_start(e), s.last().xmin), s.last()));
        assert(interval_slot(e, s.last().xmin, 0));
        lemma_interval_slot_unique(e, s.last().xmin, 0);
        assert(e.insert(0, s.last()) =~= s);
    }
}

/// Two intervals already in start order stay as they are.
pub proof fn lemma_sort_two(a: IntervalV, b: IntervalV)
    requires
        a.xmin.val() <= b.xmin.val(),
    ensures
        sort_by_start(seq![a, b]) == seq![a, b],
{
    let s = seq![a, b];
    assert(s.drop_last() =~= seq![a]);
    lemma_sort_short(seq![a]);
    assert(interval_slot(seq![a], b.xmin, 1));
    lemma_interval_slot_unique(seq![a], b.xmin, 1);
    assert(seq![a].insert(1, b) =~= s);
}

pub proof fn lemma_sort_len(s: Seq<IntervalV>)
    ensures
        sort_by_start(s).len() == s.len(),
    decreases s.len(),
{
    if s.len() > 0 {
        lemma_sort_len(s.drop_last());
        lemma_slot_exists(sort_by_start(s.drop_last()), s.last().xmin);
    }
}

/// Every list has a place for each start time.
pub proof fn lemma_slot_exists(s: Seq<IntervalV>, t: Time)
    ensures
        interval_slot(s, t, slot_of_interval(s, t)),
{
    let witness = choose_slot(s, t);
    lemma_interval_slot_unique(s, t, witness);
}

proof fn choose_slot(s: Seq<IntervalV>, t: Time) -> (p: int)
    ensures
        interval_slot(s, t, p),
    decreases s.len(),
{
    if s.len() == 0 {
        0
    } else {
        let q = choose_slot(s.drop_last(), t);
        if q < s.len() - 1 {
            assert(s.drop_last()[q] == s[q]);
            assert forall|j: int| 0 <= j < q implies (#[trigger] s[j]).xmin.val() <= t.val() by {
                assert(s.drop_last()[j] == s[j]);
            }
            q
        } else if s.last().xmin.val() > t.val() {
            assert forall|j: int| 0 <= j < q implies (#[trigger] s[j]).xmin.val() <= t.val() by {
                assert(s.drop_last()[j] == s[j]);
            }
            q
        } else {
            assert forall|j: int| 0 <= j < s.len() implies (#[trigger] s[j]).xmin.val() <= t.val() by {
                if j < s.len() - 1 {
                    assert(s.drop_last()[j] == s[j]);
                }
            }
            s.len() as int
        }
    }
}

} // verus!
