//! The document, its edit operations, and the bounded undo/redo history.
//!
//! Every successful edit records one `Change`. The history keeps, beside each
//! recorded change, the document value before and after it, and proves that
//! replaying the change maps the first to the second and reverting it maps the
//! second back to the first. Undo and redo are then exact inverses.
use vstd::prelude::*;

use crate::model::{
    Interval, IntervalV, Point, PointV, TextGridError, Tier, TierType, TierV, interval_slot,
    point_slot, intervals_view, points_view, merged_intervals, err_msg, clone_intervals,
    clone_points, slot_of_interval, lemma_interval_slot_unique, slot_in, sort_by_start, sorted_union,
    lemma_sort_two,
};
use crate::time::Time;

verus! {

/// How many changes the undo history keeps; older ones are dropped.
pub const HISTORY_CAPACITY: usize = 100;

/// The value of a document: its bounds and its tiers, without history.
pub struct DocV {
    pub xmin: Time,
    pub xmax: Time,
    pub tiers: Seq<TierV>,
}

/// One recorded edit, with what it takes to revert and to replay it.
pub enum Change {
    /// A tier appended at the end.
    AddTier(Tier),
    /// The tier removed from a position.
    RemoveTier(usize, Tier),
    /// Tier name, position the interval took, the interval.
    AddInterval(String, usize, Interval),
    /// Tier name, position, the removed interval.
    RemoveInterval(String, usize, Interval),
    /// Tier name, position the point took, the point.
    AddPoint(String, usize, Point),
    /// Tier name, position, the removed point.
    RemovePoint(String, usize, Point),
    /// Tier name, position, the original interval, its left half.
    SplitInterval(String, usize, Interval, Interval),
    /// Tier name, intervals before, intervals after.
    MergeIntervals(String, Vec<Interval>, Vec<Interval>),
    /// Tier position, old name, new name.
    RenameTier(usize, String, String),
    /// The two source names, the new name, the appended tier.
    MergeTiers(String, String, String, Tier),
    /// Old document bounds, old bounds of each tier, new bounds.
    AdjustBounds(Time, Time, Vec<(Time, Time)>, Time, Time),
    /// Tier name, intervals before, intervals after.
    InsertSilence(String, Vec<Interval>, Vec<Interval>),
}

/// The undo and redo stacks, each change paired with the document values it
/// connects.
pub struct History {
    undo: Vec<Change>,
    redo: Vec<Change>,
    past: Ghost<Seq<DocV>>,
    future: Ghost<Seq<DocV>>,
}

/// A TextGrid: bounds, tiers, and the edit history.
pub struct TextGrid {
    pub xmin: Time,
    pub xmax: Time,
    pub tiers: Vec<Tier>,
    pub history: History,
}

pub open spec fn tiers_view(v: Seq<Tier>) -> Seq<TierV> {
    v.map_values(|t: Tier| t@)
}

impl View for TextGrid {
    type V = DocV;

    open spec fn view(&self) -> DocV {
        DocV { xmin: self.xmin, xmax: self.xmax, tiers: tiers_view(self.tiers@) }
    }
}

/// `k` is the position of the first tier called `name`.
pub open spec fn first_named(s: Seq<TierV>, name: Seq<char>, k: int) -> bool {
    &&& 0 <= k < s.len()
    &&& s[k].name == name
    &&& forall|j: int| 0 <= j < k ==> (#[trigger] s[j]).name != name
}

/// Position of the first tier called `name`, or -1.
pub open spec fn tier_index(s: Seq<TierV>, name: Seq<char>) -> int {
    if exists|k: int| first_named(s, name, k) {
        choose|k: int| first_named(s, name, k)
    } else {
        -1
    }
}

pub proof fn lemma_tier_index(s: Seq<TierV>, name: Seq<char>, k: int)
    requires
        first_named(s, name, k),
    ensures
        tier_index(s, name) == k,
{
    let c = choose|k: int| first_named(s, name, k);
    assert(first_named(s, name, c));
    if c < k {
        assert(s[c].name != name);
    }
    if k < c {
        assert(s[k].name != name);
    }
}

pub proof fn lemma_no_tier_index(s: Seq<TierV>, name: Seq<char>)
    requires
        forall|j: int| 0 <= j < s.len() ==> (#[trigger] s[j]).name != name,
    ensures
        tier_index(s, name) == -1,
{
}

pub open spec fn slot_of_point(s: Seq<PointV>, t: Time) -> int {
    choose|p: int| point_slot(s, t, p)
}

pub proof fn lemma_point_slot_unique(s: Seq<PointV>, t: Time, p: int)
    requires
        point_slot(s, t, p),
    ensures
        slot_of_point(s, t) == p,
{
    let c = slot_of_point(s, t);
    assert(point_slot(s, t, c));
    if c < p {
        assert(s[c].time.val() <= t.val());
    }
    if p < c {
        assert(s[p].time.val() <= t.val());
    }
}

pub open spec fn with_tier(d: DocV, k: int, t: TierV) -> DocV {
    DocV { tiers: d.tiers.update(k, t), ..d }
}

pub open spec fn with_intervals(d: DocV, k: int, s: Seq<IntervalV>) -> DocV {
    with_tier(d, k, TierV { intervals: s, ..d.tiers[k] })
}

pub open spec fn with_points(d: DocV, k: int, s: Seq<PointV>) -> DocV {
    with_tier(d, k, TierV { points: s, ..d.tiers[k] })
}

/// Every tier's data lies within `[lo, hi]`, judged by its outermost
/// interval and point.
pub open spec fn data_within(t: TierV, lo: Time, hi: Time) -> bool {
    &&& t.intervals.len() > 0 ==> lo.val() <= t.intervals[0].xmin.val()
        && t.intervals.last().xmax.val() <= hi.val()
    &&& t.points.len() > 0 ==> lo.val() <= t.points[0].time.val() && t.points.last().time.val() <= hi.val()
}

/// The document with its bounds, and every tier's bounds, set to `[lo, hi]`.
pub open spec fn rebound(d: DocV, lo: Time, hi: Time) -> DocV {
    DocV { xmin: lo, xmax: hi, tiers: d.tiers.map_values(|t: TierV| TierV { xmin: lo, xmax: hi, ..t }) }
}

pub open spec fn adjust_spec(d: DocV, lo: Time, hi: Time) -> Option<DocV> {
    if lo.val() < hi.val() && forall|k: int| 0 <= k < d.tiers.len() ==> data_within(#[trigger] d.tiers[k], lo, hi) {
        Some(rebound(d, lo, hi))
    } else {
        None
    }
}

/// The document with the given document bounds and per-tier bounds.
pub open spec fn restore_bounds(d: DocV, lo: Time, hi: Time, b: Seq<(Time, Time)>) -> DocV {
    DocV {
        xmin: lo,
        xmax: hi,
        tiers: Seq::new(d.tiers.len(), |k: int| TierV { xmin: b[k].0, xmax: b[k].1, ..d.tiers[k] }),
    }
}

/// What is left of `iv` once `[start, end)` is cut out of it.
pub open spec fn silence_piece(iv: IntervalV, start: Time, end: Time) -> Seq<IntervalV> {
    if iv.xmax.val() <= start.val() || iv.xmin.val() >= end.val() {
        seq![iv]
    } else {
        (if iv.xmin.val() < start.val() {
            seq![IntervalV { xmin: iv.xmin, xmax: start, text: iv.text }]
        } else {
            Seq::empty()
        }) + (if iv.xmax.val() > end.val() {
            seq![IntervalV { xmin: end, xmax: iv.xmax, text: iv.text }]
        } else {
            Seq::empty()
        })
    }
}

pub open spec fn silence_kept(s: Seq<IntervalV>, start: Time, end: Time) -> Seq<IntervalV>
    decreases s.len(),
{
    if s.len() == 0 {
        Seq::empty()
    } else {
        silence_kept(s.drop_last(), start, end) + silence_piece(s.last(), start, end)
    }
}

pub open spec fn silence_interval(start: Time, end: Time) -> IntervalV {
    IntervalV { xmin: start, xmax: end, text: Seq::empty() }
}

/// The intervals after inserting an empty interval over `[start, end)`.
pub open spec fn with_silence(s: Seq<IntervalV>, start: Time, end: Time) -> Seq<IntervalV> {
    let kept = silence_kept(s, start, end);
    kept.insert(slot_of_interval(kept, start), silence_interval(start, end))
}

pub open spec fn fits_doc(d: DocV, t: TierV) -> bool {
    d.xmin.val() <= t.xmin.val() && t.xmax.val() <= d.xmax.val()
}

/// Appending `t` needs its bounds within the document's and its name free.
pub open spec fn add_tier_spec(d: DocV, t: TierV) -> Option<DocV> {
    if fits_doc(d, t) && tier_index(d.tiers, t.name) < 0 {
        Some(DocV { tiers: d.tiers.push(t), ..d })
    } else {
        None
    }
}

pub open spec fn remove_tier_spec(d: DocV, i: int) -> Option<DocV> {
    if 0 <= i < d.tiers.len() {
        Some(DocV { tiers: d.tiers.remove(i), ..d })
    } else {
        None
    }
}

pub open spec fn add_interval_spec(d: DocV, name: Seq<char>, iv: IntervalV) -> Option<DocV> {
    let k = tier_index(d.tiers, name);
    if k >= 0 && d.tiers[k].tier_type == TierType::IntervalTier && d.tiers[k].xmin.val() <= iv.xmin.val()
        && iv.xmax.val() <= d.tiers[k].xmax.val() {
        let s = d.tiers[k].intervals;
        Some(with_intervals(d, k, s.insert(slot_of_interval(s, iv.xmin), iv)))
    } else {
        None
    }
}

pub open spec fn remove_interval_spec(d: DocV, name: Seq<char>, i: int) -> Option<DocV> {
    let k = tier_index(d.tiers, name);
    if k >= 0 && d.tiers[k].tier_type == TierType::IntervalTier && 0 <= i < d.tiers[k].intervals.len() {
        Some(with_intervals(d, k, d.tiers[k].intervals.remove(i)))
    } else {
        None
    }
}

pub open spec fn add_point_spec(d: DocV, name: Seq<char>, pt: PointV) -> Option<DocV> {
    let k = tier_index(d.tiers, name);
    if k >= 0 && d.tiers[k].tier_type == TierType::PointTier && d.tiers[k].xmin.val() <= pt.time.val()
        && pt.time.val() <= d.tiers[k].xmax.val() {
        let s = d.tiers[k].points;
        Some(with_points(d, k, s.insert(slot_of_point(s, pt.time), pt)))
    } else {
        None
    }
}

pub open spec fn remove_point_spec(d: DocV, name: Seq<char>, i: int) -> Option<DocV> {
    let k = tier_index(d.tiers, name);
    if k >= 0 && d.tiers[k].tier_type == TierType::PointTier && 0 <= i < d.tiers[k].points.len() {
        Some(with_points(d, k, d.tiers[k].points.remove(i)))
    } else {
        None
    }
}

pub open spec fn split_spec(d: DocV, name: Seq<char>, i: int, time: Time) -> Option<DocV> {
    let k = tier_index(d.tiers, name);
    if k >= 0 && d.tiers[k].tier_type == TierType::IntervalTier && 0 <= i < d.tiers[k].intervals.len() {
        let o = d.tiers[k].intervals[i];
        if o.xmin.val() < time.val() && time.val() < o.xmax.val() {
            Some(
                with_intervals(
                    d,
                    k,
                    d.tiers[k].intervals.update(i, IntervalV { xmin: o.xmin, xmax: time, text: o.text }).insert(
                        i + 1,
                        IntervalV { xmin: time, xmax: o.xmax, text: o.text },
                    ),
                ),
            )
        } else {
            None
        }
    } else {
        None
    }
}

pub open spec fn merge_spec(d: DocV, name: Seq<char>) -> Option<DocV> {
    let k = tier_index(d.tiers, name);
    if k < 0 {
        None
    } else if d.tiers[k].tier_type == TierType::IntervalTier {
        Some(with_intervals(d, k, merged_intervals(sort_by_start(d.tiers[k].intervals))))
    } else {
        Some(d)
    }
}

pub open spec fn rename_spec(d: DocV, old_name: Seq<char>, new_name: Seq<char>) -> Option<DocV> {
    let k = tier_index(d.tiers, old_name);
    if k >= 0 && tier_index(d.tiers, new_name) < 0 {
        Some(with_tier(d, k, TierV { name: new_name, ..d.tiers[k] }))
    } else {
        None
    }
}

pub open spec fn set_intervals_spec(d: DocV, name: Seq<char>, s: Seq<IntervalV>) -> Option<DocV> {
    let k = tier_index(d.tiers, name);
    if k >= 0 {
        Some(with_intervals(d, k, s))
    } else {
        None
    }
}

/// What replaying a change does to a document (`None`: it cannot).
pub open spec fn apply_spec(d: DocV, c: Change) -> Option<DocV> {
    match c {
        Change::AddTier(t) | Change::MergeTiers(_, _, _, t) => add_tier_spec(d, t@),
        Change::RemoveTier(i, _) => remove_tier_spec(d, i as int),
        Change::AddInterval(name, _, iv) => add_interval_spec(d, name@, iv@),
        Change::RemoveInterval(name, i, _) => remove_interval_spec(d, name@, i as int),
        Change::AddPoint(name, _, pt) => add_point_spec(d, name@, pt@),
        Change::RemovePoint(name, i, _) => remove_point_spec(d, name@, i as int),
        Change::SplitInterval(name, i, _, left) => split_spec(d, name@, i as int, left.xmax),
        Change::MergeIntervals(name, _, _) => merge_spec(d, name@),
        Change::RenameTier(_, old_name, new_name) => rename_spec(d, old_name@, new_name@),
        Change::AdjustBounds(_, _, _, lo, hi) => adjust_spec(d, lo, hi),
        Change::InsertSilence(name, _, after) => set_intervals_spec(d, name@, intervals_view(after@)),
    }
}

/// What undoing a change does to a document (`None`: it cannot).
pub open spec fn revert_spec(d: DocV, c: Change) -> Option<DocV> {
    match c {
        Change::AddTier(_) | Change::MergeTiers(_, _, _, _) => if d.tiers.len() > 0 {
            Some(DocV { tiers: d.tiers.drop_last(), ..d })
        } else {
            None
        },
        Change::RemoveTier(i, t) => if i <= d.tiers.len() {
            Some(DocV { tiers: d.tiers.insert(i as int, t@), ..d })
        } else {
            None
        },
        Change::AddInterval(name, i, _) => {
            let k = tier_index(d.tiers, name@);
            if k >= 0 && i < d.tiers[k].intervals.len() {
                Some(with_intervals(d, k, d.tiers[k].intervals.remove(i as int)))
            } else {
                None
            }
        },
        Change::RemoveInterval(name, i, iv) => {
            let k = tier_index(d.tiers, name@);
            if k >= 0 && i <= d.tiers[k].intervals.len() {
                Some(with_intervals(d, k, d.tiers[k].intervals.insert(i as int, iv@)))
            } else {
                None
            }
        },
        Change::AddPoint(name, i, _) => {
            let k = tier_index(d.tiers, name@);
            if k >= 0 && i < d.tiers[k].points.len() {
                Some(with_points(d, k, d.tiers[k].points.remove(i as int)))
            } else {
                None
            }
        },
        Change::RemovePoint(name, i, pt) => {
            let k = tier_index(d.tiers, name@);
            if k >= 0 && i <= d.tiers[k].points.len() {
                Some(with_points(d, k, d.tiers[k].points.insert(i as int, pt@)))
            } else {
                None
            }
        },
        Change::SplitInterval(name, i, orig, _) => {
            let k = tier_index(d.tiers, name@);
            if k >= 0 && i + 1 < d.tiers[k].intervals.len() {
                Some(with_intervals(d, k, d.tiers[k].intervals.update(i as int, orig@).remove(i + 1)))
            } else {
                None
            }
        },
        Change::MergeIntervals(name, before, _) | Change::InsertSilence(name, before, _) => {
            let k = tier_index(d.tiers, name@);
            if k >= 0 {
                Some(with_intervals(d, k, intervals_view(before@)))
            } else {
                None
            }
        },
        Change::RenameTier(i, old_name, _) => if i < d.tiers.len() {
            Some(with_tier(d, i as int, TierV { name: old_name@, ..d.tiers[i as int] }))
        } else {
            None
        },
        Change::AdjustBounds(lo, hi, b, _, _) => if b@.len() == d.tiers.len() {
            Some(restore_bounds(d, lo, hi, b@))
        } else {
            None
        },
    }
}

/// Replaying `c` maps `before` to `after`, and reverting it maps `after` back.
pub open spec fn step_ok(before: DocV, c: Change, after: DocV) -> bool {
    apply_spec(before, c) == Some(after) && revert_spec(after, c) == Some(before)
}

/// `s` with `x` added at the end, dropping the oldest entry when full.
pub open spec fn push_bounded(s: Seq<DocV>, x: DocV) -> Seq<DocV> {
    if s.len() < HISTORY_CAPACITY {
        s.push(x)
    } else {
        s.drop_first().push(x)
    }
}

impl History {
    /// An empty history.
    pub fn new() -> (r: History)
        ensures
            r.undo_states() == Seq::<DocV>::empty(),
            r.redo_states() == Seq::<DocV>::empty(),
            forall|d: DocV| r.consistent(d),
    {
        History { undo: Vec::new(), redo: Vec::new(), past: Ghost(Seq::empty()), future: Ghost(Seq::empty()) }
    }

    /// The document values before each change that can be undone, oldest first.
    pub closed spec fn undo_states(self) -> Seq<DocV> {
        self.past@
    }

    /// The document values after each change that can be redone; the next
    /// redo brings back the last one.
    pub closed spec fn redo_states(self) -> Seq<DocV> {
        self.future@
    }

    pub closed spec fn after_undo(self, i: int, cur: DocV) -> DocV {
        if i + 1 < self.past@.len() {
            self.past@[i + 1]
        } else {
            cur
        }
    }

    pub closed spec fn before_redo(self, j: int, cur: DocV) -> DocV {
        if j + 1 < self.future@.len() {
            self.future@[j + 1]
        } else {
            cur
        }
    }

    /// Each recorded change connects the neighbouring document values, with
    /// `cur` standing after the newest undoable change and before the next redo.
    pub closed spec fn consistent(self, cur: DocV) -> bool {
        &&& self.past@.len() == self.undo@.len()
        &&& self.undo@.len() <= HISTORY_CAPACITY
        &&& self.future@.len() == self.redo@.len()
        &&& forall|i: int|
            0 <= i < self.undo@.len() ==> step_ok(
                #[trigger] self.past@[i],
                self.undo@[i],
                self.after_undo(i, cur),
            )
        &&& forall|j: int|
            0 <= j < self.redo@.len() ==> step_ok(
                self.before_redo(j, cur),
                self.redo@[j],
                #[trigger] self.future@[j],
            )
    }
}

pub proof fn lemma_replace_tier(v: Seq<Tier>, k: int, t: Tier)
    requires
        0 <= k < v.len(),
    ensures
        tiers_view(v.remove(k).insert(k, t)) == tiers_view(v).update(k, t@),
{
    assert(tiers_view(v.remove(k).insert(k, t)) =~= tiers_view(v).update(k, t@));
}

/// Editing one tier's contents, keeping its name, leaves the lookup of that
/// name where it was.
pub proof fn lemma_same_names(s: Seq<TierV>, k: int, t: TierV, name: Seq<char>)
    requires
        first_named(s, name, k),
        t.name == s[k].name,
    ensures
        first_named(s.update(k, t), name, k),
        tier_index(s.update(k, t), name) == k,
        tier_index(s, name) == k,
{
    let u = s.update(k, t);
    assert forall|j: int| 0 <= j < k implies (#[trigger] u[j]).name != name by {
        assert(u[j] == s[j]);
    }
    lemma_tier_index(u, name, k);
    lemma_tier_index(s, name, k);
}

/// Whether two strings hold the same characters.
pub fn same_text(a: &str, b: &str) -> (r: bool)
    ensures
        r == (a@ == b@),
{
    let x = a.as_bytes();
    let y = b.as_bytes();
    proof {
        vstd::utf8::encode_utf8_decode_utf8(a@);
        vstd::utf8::encode_utf8_decode_utf8(b@);
    }
    assert(x@ == vstd::utf8::encode_utf8(a@));
    assert(y@ == vstd::utf8::encode_utf8(b@));
    if x.len() != y.len() {
        return false;
    }
    let mut i: usize = 0;
    while i < x.len()
        invariant
            x.len() == y.len(),
            x@ == vstd::utf8::encode_utf8(a@),
            y@ == vstd::utf8::encode_utf8(b@),
            i <= x.len(),
            forall|j: int| 0 <= j < i ==> x@[j] == y@[j],
        decreases x.len() - i,
    {
        if x[i] != y[i] {
            assert(x@[i as int] != y@[i as int]);
            return false;
        }
        i = i + 1;
    }
    assert(x@ =~= y@);
    true
}

/// The history is recorded: the value before the edit joins the undo states
/// and the redo states are cleared.
pub open spec fn recorded(old: TextGrid, new: TextGrid) -> bool {
    &&& new.history.undo_states() == push_bounded(old.history.undo_states(), old@)
    &&& new.history.redo_states() == Seq::<DocV>::empty()
}

/// A failed edit leaves the document and its history as they were.
pub open spec fn untouched(old: TextGrid, new: TextGrid) -> bool {
    &&& new@ == old@
    &&& new.history == old.history
}

impl TextGrid {
    /// The history matches the document's current value.
    pub open spec fn wf(&self) -> bool {
        self.history.consistent(self@)
    }

    /// An empty document over `[xmin, xmax]`.
    pub fn new(xmin: Time, xmax: Time) -> (r: Result<TextGrid, TextGridError>)
        ensures
            xmin.val() < xmax.val() <==> r is Ok,
            r is Err ==> r matches Err(TextGridError::InvalidRange(_)),
            r matches Ok(g) ==> g.wf() && g@ == (DocV { xmin, xmax, tiers: Seq::empty() })
                && g.history.undo_states() == Seq::<DocV>::empty()
                && g.history.redo_states() == Seq::<DocV>::empty(),
    {
        if xmax.le(&xmin) {
            return Err(TextGridError::InvalidRange(err_msg("xmin must be less than xmax")));
        }
        let g = TextGrid { xmin, xmax, tiers: Vec::new(), history: History::new() };
        assert(g@.tiers =~= Seq::<TierV>::empty());
        Ok(g)
    }

    /// Replaces the tiers; the edit history starts afresh.
    pub fn with_tiers(self, tiers: Vec<Tier>) -> (r: TextGrid)
        ensures
            r.wf(),
            r@ == (DocV { xmin: self.xmin, xmax: self.xmax, tiers: tiers_view(tiers@) }),
            r.history.undo_states() == Seq::<DocV>::empty(),
            r.history.redo_states() == Seq::<DocV>::empty(),
    {
        TextGrid { xmin: self.xmin, xmax: self.xmax, tiers, history: History::new() }
    }

    /// Position of the first tier called `name`.
    pub fn tier_position(&self, name: &str) -> (r: Option<usize>)
        ensures
            r matches Some(k) ==> first_named(self@.tiers, name@, k as int),
            r is None <==> tier_index(self@.tiers, name@) < 0,
            r matches Some(k) ==> tier_index(self@.tiers, name@) == k,
    {
        let mut i: usize = 0;
        while i < self.tiers.len()
            invariant
                i <= self.tiers.len(),
                forall|j: int| 0 <= j < i ==> (#[trigger] self@.tiers[j]).name != name@,
            decreases self.tiers.len() - i,
        {
            if same_text(self.tiers[i].name.as_str(), name) {
                proof {
                    lemma_tier_index(self@.tiers, name@, i as int);
                }
                return Some(i);
            }
            i = i + 1;
        }
        proof {
            lemma_no_tier_index(self@.tiers, name@);
        }
        None
    }

    /// The first tier called `name`.
    pub fn get_tier(&self, name: &str) -> (r: Option<&Tier>)
        ensures
            r is None <==> tier_index(self@.tiers, name@) < 0,
            r matches Some(t) ==> t@ == self@.tiers[tier_index(self@.tiers, name@)],
    {
        match self.tier_position(name) {
            Some(k) => Some(&self.tiers[k]),
            None => None,
        }
    }

    /// Pushes a change that maps `before` to the current value.
    fn record(&mut self, c: Change, Ghost(before): Ghost<DocV>)
        requires
            old(self).history.consistent(before),
            step_ok(before, c, old(self)@),
        ensures
            final(self)@ == old(self)@,
            final(self).wf(),
            final(self).history.undo_states() == push_bounded(old(self).history.undo_states(), before),
            final(self).history.redo_states() == Seq::<DocV>::empty(),
    {
        let ghost cur = self@;
        let ghost h0 = self.history;
        if self.history.undo.len() >= HISTORY_CAPACITY {
            self.history.undo.remove(0);
            self.history.past = Ghost(self.history.past@.drop_first());
        }
        let ghost h1 = self.history;
        proof {
            assert forall|i: int| 0 <= i < h1.undo@.len() implies step_ok(
                #[trigger] h1.past@[i],
                h1.undo@[i],
                h1.after_undo(i, before),
            ) by {
                if h1.undo@.len() < h0.undo@.len() {
                    assert(h1.past@[i] == h0.past@[i + 1]);
                    assert(h1.undo@[i] == h0.undo@[i + 1]);
                    assert(h0.after_undo(i + 1, before) == h1.after_undo(i, before));
                }
            }
        }
        self.history.undo.push(c);
        self.history.past = Ghost(self.history.past@.push(before));
        self.history.redo = Vec::new();
        self.history.future = Ghost(Seq::empty());
        proof {
            let h = self.history;
            assert forall|i: int| 0 <= i < h.undo@.len() implies step_ok(
                #[trigger] h.past@[i],
                h.undo@[i],
                h.after_undo(i, cur),
            ) by {
                if i + 1 < h.undo@.len() {
                    assert(h.past@[i] == h1.past@[i]);
                    assert(h.undo@[i] == h1.undo@[i]);
                    assert(h1.after_undo(i, before) == h.after_undo(i, cur));
                }
            }
        }
    }
}

pub proof fn lemma_with_tier_back(d: DocV, k: int, t: TierV)
    requires
        0 <= k < d.tiers.len(),
    ensures
        with_tier(with_tier(d, k, t), k, d.tiers[k]) == d,
        with_tier(d, k, d.tiers[k]) == d,
{
    assert(with_tier(with_tier(d, k, t), k, d.tiers[k]).tiers =~= d.tiers);
    assert(with_tier(d, k, d.tiers[k]).tiers =~= d.tiers);
}

impl TextGrid {
    /// Adds an interval to the first tier called `tier_name`, in start order.
    pub fn tier_add_interval(&mut self, tier_name: &str, interval: Interval) -> (r: Result<(), TextGridError>)
        requires
            old(self).wf(),
        ensures
            final(self).wf(),
            tier_index(old(self)@.tiers, tier_name@) < 0 ==> r matches Err(TextGridError::NotFound(_)),
            ({
                let k = tier_index(old(self)@.tiers, tier_name@);
                let t = old(self)@.tiers[k];
                k >= 0 && t.tier_type != TierType::IntervalTier ==> (r matches Err(TextGridError::KindMismatch(_)))
            }),
            ({
                let k = tier_index(old(self)@.tiers, tier_name@);
                let t = old(self)@.tiers[k];
                k >= 0 && t.tier_type == TierType::IntervalTier && (interval.xmin.val() < t.xmin.val()
                    || interval.xmax.val() > t.xmax.val()) ==> (r matches Err(TextGridError::OutOfBounds(_)))
            }),
            r is Ok <==> add_interval_spec(old(self)@, tier_name@, interval@) is Some,
            r is Ok ==> Some(final(self)@) == add_interval_spec(old(self)@, tier_name@, interval@)
                && recorded(*old(self), *final(self)),
            r is Err ==> untouched(*old(self), *final(self)),
    {
        let k = match self.tier_position(tier_name) {
            Some(k) => k,
            None => {
                return Err(TextGridError::NotFound(err_msg("tier not found")));
            },
        };
        let ghost before = self@;
        let ghost iv = interval@;
        let kept = interval.clone();
        let mut t = self.tiers.remove(k);
        let res = t.insert_interval(interval);
        let ghost tv = t@;
        self.tiers.insert(k, t);
        proof {
            lemma_replace_tier(old(self).tiers@, k as int, t);
            lemma_with_tier_back(before, k as int, tv);
        }
        match res {
            Ok(p) => {
                proof {
                    let s0 = before.tiers[k as int].intervals;
                    lemma_interval_slot_unique(s0, iv.xmin, p as int);
                    lemma_same_names(before.tiers, k as int, tv, tier_name@);
                    assert(s0.insert(p as int, iv).remove(p as int) =~= s0);
                    assert(TierV { intervals: s0, ..tv } == before.tiers[k as int]);
                }
                self.record(Change::AddInterval(tier_name.to_owned(), p, kept), Ghost(before));
                Ok(())
            },
            Err(e) => Err(e),
        }
    }

    /// Removes the interval at `index` from the first tier called `tier_name`.
    pub fn tier_remove_interval(&mut self, tier_name: &str, index: usize) -> (r: Result<(), TextGridError>)
        requires
            old(self).wf(),
        ensures
            final(self).wf(),
            tier_index(old(self)@.tiers, tier_name@) < 0 ==> r matches Err(TextGridError::NotFound(_)),
            ({
                let k = tier_index(old(self)@.tiers, tier_name@);
                let t = old(self)@.tiers[k];
                k >= 0 && t.tier_type != TierType::IntervalTier ==> (r matches Err(TextGridError::KindMismatch(_)))
            }),
            ({
                let k = tier_index(old(self)@.tiers, tier_name@);
                let t = old(self)@.tiers[k];
                k >= 0 && t.tier_type == TierType::IntervalTier && index >= t.intervals.len() ==> (r matches Err(
                    TextGridError::IndexOutOfRange(_),
                ))
            }),
            r is Ok <==> remove_interval_spec(old(self)@, tier_name@, index as int) is Some,
            r is Ok ==> Some(final(self)@) == remove_interval_spec(old(self)@, tier_name@, index as int)
                && recorded(*old(self), *final(self)),
            r is Err ==> untouched(*old(self), *final(self)),
    {
        let k = match self.tier_position(tier_name) {
            Some(k) => k,
            None => {
                return Err(TextGridError::NotFound(err_msg("tier not found")));
            },
        };
        let ghost before = self@;
        let mut t = self.tiers.remove(k);
        let res = t.remove_interval(index);
        let ghost tv = t@;
        self.tiers.insert(k, t);
        proof {
            lemma_replace_tier(old(self).tiers@, k as int, t);
            lemma_with_tier_back(before, k as int, tv);
        }
        match res {
            Ok(iv) => {
                proof {
                    let s0 = before.tiers[k as int].intervals;
                    lemma_same_names(before.tiers, k as int, tv, tier_name@);
                    assert(s0.remove(index as int).insert(index as int, iv@) =~= s0);
                    assert(TierV { intervals: s0, ..tv } == before.tiers[k as int]);
                }
                self.record(Change::RemoveInterval(tier_name.to_owned(), index, iv), Ghost(before));
                Ok(())
            },
            Err(e) => Err(e),
        }
    }

    /// Adds a point to the first tier called `tier_name`, in time order.
    pub fn tier_add_point(&mut self, tier_name: &str, point: Point) -> (r: Result<(), TextGridError>)
        requires
            old(self).wf(),
        ensures
            final(self).wf(),
            tier_index(old(self)@.tiers, tier_name@) < 0 ==> r matches Err(TextGridError::NotFound(_)),
            ({
                let k = tier_index(old(self)@.tiers, tier_name@);
                let t = old(self)@.tiers[k];
                k >= 0 && t.tier_type != TierType::PointTier ==> (r matches Err(TextGridError::KindMismatch(_)))
            }),
            ({
                let k = tier_index(old(self)@.tiers, tier_name@);
                let t = old(self)@.tiers[k];
                k >= 0 && t.tier_type == TierType::PointTier && (point.time.val() < t.xmin.val() || point.time.val()
                    > t.xmax.val()) ==> (r matches Err(TextGridError::OutOfBounds(_)))
            }),
            r is Ok <==> add_point_spec(old(self)@, tier_name@, point@) is Some,
            r is Ok ==> Some(final(self)@) == add_point_spec(old(self)@, tier_name@, point@)
                && recorded(*old(self), *final(self)),
            r is Err ==> untouched(*old(self), *final(self)),
    {
        let k = match self.tier_position(tier_name) {
            Some(k) => k,
            None => {
                return Err(TextGridError::NotFound(err_msg("tier not found")));
            },
        };
        let ghost before = self@;
        let ghost pv = point@;
        let kept = point.clone();
        let mut t = self.tiers.remove(k);
        let res = t.insert_point(point);
        let ghost tv = t@;
        self.tiers.insert(k, t);
        proof {
            lemma_replace_tier(old(self).tiers@, k as int, t);
            lemma_with_tier_back(before, k as int, tv);
        }
        match res {
            Ok(p) => {
                proof {
                    let s0 = before.tiers[k as int].points;
                    lemma_point_slot_unique(s0, pv.time, p as int);
                    lemma_same_names(before.tiers, k as int, tv, tier_name@);
                    assert(s0.insert(p as int, pv).remove(p as int) =~= s0);
                    assert(TierV { points: s0, ..tv } == before.tiers[k as int]);
                }
                self.record(Change::AddPoint(tier_name.to_owned(), p, kept), Ghost(before));
                Ok(())
            },
            Err(e) => Err(e),
        }
    }

    /// Removes the point at `index` from the first tier called `tier_name`.
    pub fn tier_remove_point(&mut self, tier_name: &str, index: usize) -> (r: Result<(), TextGridError>)
        requires
            old(self).wf(),
        ensures
            final(self).wf(),
            tier_index(old(self)@.tiers, tier_name@) < 0 ==> r matches Err(TextGridError::NotFound(_)),
            ({
                let k = tier_index(old(self)@.tiers, tier_name@);
                let t = old(self)@.tiers[k];
                k >= 0 && t.tier_type != TierType::PointTier ==> (r matches Err(TextGridError::KindMismatch(_)))
            }),
            ({
                let k = tier_index(old(self)@.tiers, tier_name@);
                let t = old(self)@.tiers[k];
                k >= 0 && t.tier_type == TierType::PointTier && index >= t.points.len() ==> (r matches Err(
                    TextGridError::IndexOutOfRange(_),
                ))
            }),
            r is Ok <==> remove_point_spec(old(self)@, tier_name@, index as int) is Some,
            r is Ok ==> Some(final(self)@) == remove_point_spec(old(self)@, tier_name@, index as int)
                && recorded(*old(self), *final(self)),
            r is Err ==> untouched(*old(self), *final(self)),
    {
        let k = match self.tier_position(tier_name) {
            Some(k) => k,
            None => {
                return Err(TextGridError::NotFound(err_msg("tier not found")));
            },
        };
        let ghost before = self@;
        let mut t = self.tiers.remove(k);
        let res = t.remove_point(index);
        let ghost tv = t@;
        self.tiers.insert(k, t);
        proof {
            lemma_replace_tier(old(self).tiers@, k as int, t);
            lemma_with_tier_back(before, k as int, tv);
        }
        match res {
            Ok(pt) => {
                proof {
                    let s0 = before.tiers[k as int].points;
                    lemma_same_names(before.tiers, k as int, tv, tier_name@);
                    assert(s0.remove(index as int).insert(index as int, pt@) =~= s0);
                    assert(TierV { points: s0, ..tv } == before.tiers[k as int]);
                }
                self.record(Change::RemovePoint(tier_name.to_owned(), index, pt), Ghost(before));
                Ok(())
            },
            Err(e) => Err(e),
        }
    }

    /// Splits the interval at `index` of the first tier called `tier_name`.
    pub fn tier_split_interval(&mut self, tier_name: &str, index: usize, time: Time) -> (r: Result<(), TextGridError>)
        requires
            old(self).wf(),
        ensures
            final(self).wf(),
            tier_index(old(self)@.tiers, tier_name@) < 0 ==> r matches Err(TextGridError::NotFound(_)),
            ({
                let k = tier_index(old(self)@.tiers, tier_name@);
                let t = old(self)@.tiers[k];
                k >= 0 && t.tier_type != TierType::IntervalTier ==> (r matches Err(TextGridError::KindMismatch(_)))
            }),
            ({
                let k = tier_index(old(self)@.tiers, tier_name@);
                let t = old(self)@.tiers[k];
                k >= 0 && t.tier_type == TierType::IntervalTier && index >= t.intervals.len() ==> (r matches Err(
                    TextGridError::IndexOutOfRange(_),
                ))
            }),
            ({
                let k = tier_index(old(self)@.tiers, tier_name@);
                let t = old(self)@.tiers[k];
                k >= 0 && t.tier_type == TierType::IntervalTier && index < t.intervals.len() && !(t.intervals[index as int].xmin.val()
                    < time.val() && time.val() < t.intervals[index as int].xmax.val()) ==> (r matches Err(
                    TextGridError::InvalidRange(_),
                ))
            }),
            r is Ok <==> split_spec(old(self)@, tier_name@, index as int, time) is Some,
            r is Ok ==> Some(final(self)@) == split_spec(old(self)@, tier_name@, index as int, time)
                && recorded(*old(self), *final(self)),
            r is Err ==> untouched(*old(self), *final(self)),
    {
        let k = match self.tier_position(tier_name) {
            Some(k) => k,
            None => {
                return Err(TextGridError::NotFound(err_msg("tier not found")));
            },
        };
        let ghost before = self@;
        let mut t = self.tiers.remove(k);
        let orig = if index < t.intervals.len() {
            Some(t.intervals[index].clone())
        } else {
            None
        };
        let res = t.split_interval(index, time);
        let ghost tv = t@;
        self.tiers.insert(k, t);
        proof {
            lemma_replace_tier(old(self).tiers@, k as int, t);
            lemma_with_tier_back(before, k as int, tv);
        }
        match res {
            Ok((left, _)) => {
                let orig = orig.unwrap();
                proof {
                    let s0 = before.tiers[k as int].intervals;
                    lemma_same_names(before.tiers, k as int, tv, tier_name@);
                    assert(tv.intervals.update(index as int, orig@).remove(index + 1) =~= s0);

                    assert(TierV { intervals: s0, ..tv } == before.tiers[k as int]);
                }
                self.record(Change::SplitInterval(tier_name.to_owned(), index, orig, left), Ghost(before));
                Ok(())
            },
            Err(e) => Err(e),
        }
    }

    /// Merges touching equal-text intervals of the first tier called `tier_name`.
    pub fn tier_merge_intervals(&mut self, tier_name: &str) -> (r: Result<(), TextGridError>)
        requires
            old(self).wf(),
        ensures
            final(self).wf(),
            tier_index(old(self)@.tiers, tier_name@) < 0 <==> r matches Err(TextGridError::NotFound(_)),
            r is Ok <==> merge_spec(old(self)@, tier_name@) is Some,
            r is Ok ==> Some(final(self)@) == merge_spec(old(self)@, tier_name@) && recorded(*old(self), *final(self)),
            r is Err ==> untouched(*old(self), *final(self)),
    {
        let k = match self.tier_position(tier_name) {
            Some(k) => k,
            None => {
                return Err(TextGridError::NotFound(err_msg("tier not found")));
            },
        };
        let ghost before = self@;
        let mut t = self.tiers.remove(k);
        let res = t.merge_intervals();
        let after = clone_intervals(&t.intervals);
        let ghost tv = t@;
        self.tiers.insert(k, t);
        proof {
            lemma_replace_tier(old(self).tiers@, k as int, t);
            lemma_with_tier_back(before, k as int, tv);
        }
        match res {
            Ok(prev) => {
                proof {
                    lemma_same_names(before.tiers, k as int, tv, tier_name@);
                    assert(TierV { intervals: intervals_view(prev@), ..tv } == before.tiers[k as int]);
                }
                self.record(Change::MergeIntervals(tier_name.to_owned(), prev, after), Ghost(before));
                Ok(())
            },
            Err(e) => Err(e),
        }
    }
}

pub open spec fn silence_spec(d: DocV, name: Seq<char>, start: Time, end: Time) -> Option<DocV> {
    let k = tier_index(d.tiers, name);
    if k >= 0 && d.tiers[k].tier_type == TierType::IntervalTier && d.tiers[k].xmin.val() <= start.val()
        && end.val() <= d.tiers[k].xmax.val() && start.val() < end.val() {
        Some(with_intervals(d, k, with_silence(d.tiers[k].intervals, start, end)))
    } else {
        None
    }
}

/// The intervals of `s` with `[start, end)` cut out and an empty interval
/// put in its place.
pub fn cut_silence(s: &Vec<Interval>, start: Time, end: Time) -> (r: Vec<Interval>)
    ensures
        intervals_view(r@) == with_silence(intervals_view(s@), start, end),
{
    let ghost sv = intervals_view(s@);
    let mut kept: Vec<Interval> = Vec::new();
    let mut i: usize = 0;
    while i < s.len()
        invariant
            i <= s.len(),
            sv == intervals_view(s@),
            intervals_view(kept@) == silence_kept(sv.subrange(0, i as int), start, end),
        decreases s.len() - i,
    {
        let ghost k0 = intervals_view(kept@);
        let iv = &s[i];
        proof {
            let sub = sv.subrange(0, i + 1);
            assert(sub.drop_last() =~= sv.subrange(0, i as int));
            assert(sub.last() == iv@);
        }
        if iv.xmax.le(&start) || end.le(&iv.xmin) {
            kept.push(iv.clone());
            assert(intervals_view(kept@) =~= k0 + seq![iv@]);
        } else {
            let ghost k1 = k0;
            if iv.xmin.lt(&start) {
                kept.push(Interval { xmin: iv.xmin, xmax: start, text: iv.text.clone() });
            }
            let ghost k2 = intervals_view(kept@);
            if end.lt(&iv.xmax) {
                kept.push(Interval { xmin: end, xmax: iv.xmax, text: iv.text.clone() });
            }
            proof {
                let left: Seq<IntervalV> = if iv.xmin.val() < start.val() {
                    seq![IntervalV { xmin: iv.xmin, xmax: start, text: iv@.text }]
                } else {
                    Seq::empty()
                };
                let right: Seq<IntervalV> = if iv.xmax.val() > end.val() {
                    seq![IntervalV { xmin: end, xmax: iv.xmax, text: iv@.text }]
                } else {
                    Seq::empty()
                };
                assert(k2 =~= k0 + left);
                assert(intervals_view(kept@) =~= k2 + right);
                assert(k0 + (left + right) =~= k0 + left + right);
            }
        }
        i = i + 1;
    }
    assert(sv.subrange(0, s.len() as int) =~= sv);
    let p = slot_in(&kept, &start);
    let ghost kv = intervals_view(kept@);
    proof {
        lemma_interval_slot_unique(kv, start, p as int);
    }
    kept.insert(p, Interval { xmin: start, xmax: end, text: String::new() });
    assert(intervals_view(kept@) =~= kv.insert(p as int, silence_interval(start, end)));
    kept
}

impl TextGrid {
    /// Appends a tier whose bounds lie within the document's.
    pub fn add_tier(&mut self, tier: Tier) -> (r: Result<(), TextGridError>)
        requires
            old(self).wf(),
        ensures
            final(self).wf(),
            r is Ok <==> add_tier_spec(old(self)@, tier@) is Some,
            !fits_doc(old(self)@, tier@) ==> (r matches Err(TextGridError::OutOfBounds(_))),
            fits_doc(old(self)@, tier@) && tier_index(old(self)@.tiers, tier@.name) >= 0 ==> (r matches Err(
                TextGridError::ValidationFailure(_),
            )),
            r is Err ==> untouched(*old(self), *final(self)),
            r is Ok ==> tier_index(old(self)@.tiers, tier@.name) < 0,
            r is Ok ==> Some(final(self)@) == add_tier_spec(old(self)@, tier@) && recorded(*old(self), *final(self)),
    {
        if tier.xmin.lt(&self.xmin) || self.xmax.lt(&tier.xmax) {
            return Err(TextGridError::OutOfBounds(err_msg("tier bounds must lie within the document bounds")));
        }
        if self.tier_position(tier.name.as_str()).is_some() {
            return Err(TextGridError::ValidationFailure(err_msg("a tier of that name already exists")));
        }
        let ghost before = self@;
        let kept = tier.clone();
        self.tiers.push(tier);
        proof {
            assert(self@.tiers =~= before.tiers.push(kept@));
            assert(self@.tiers.drop_last() =~= before.tiers);
        }
        self.record(Change::AddTier(kept), Ghost(before));
        Ok(())
    }

    /// Removes the tier at `index`.
    pub fn remove_tier(&mut self, index: usize) -> (r: Result<(), TextGridError>)
        requires
            old(self).wf(),
        ensures
            final(self).wf(),
            r is Ok <==> index < old(self)@.tiers.len(),
            r is Err ==> (r matches Err(TextGridError::IndexOutOfRange(_))) && untouched(*old(self), *final(self)),
            r is Ok ==> Some(final(self)@) == remove_tier_spec(old(self)@, index as int) && recorded(
                *old(self),
                *final(self),
            ),
    {
        if index >= self.tiers.len() {
            return Err(TextGridError::IndexOutOfRange(err_msg("tier index out of range")));
        }
        let ghost before = self@;
        let t = self.tiers.remove(index);
        proof {
            assert(self@.tiers =~= before.tiers.remove(index as int));
            assert(self@.tiers.insert(index as int, t@) =~= before.tiers);
        }
        self.record(Change::RemoveTier(index, t), Ghost(before));
        Ok(())
    }

    /// Renames the first tier called `old_name`.
    pub fn rename_tier(&mut self, old_name: &str, new_name: String) -> (r: Result<(), TextGridError>)
        requires
            old(self).wf(),
        ensures
            final(self).wf(),
            r is Ok <==> rename_spec(old(self)@, old_name@, new_name@) is Some,
            tier_index(old(self)@.tiers, old_name@) < 0 ==> (r matches Err(TextGridError::NotFound(_))),
            tier_index(old(self)@.tiers, old_name@) >= 0 && tier_index(old(self)@.tiers, new_name@) >= 0 ==> (r matches Err(
                TextGridError::ValidationFailure(_),
            )),
            r is Err ==> untouched(*old(self), *final(self)),
            r is Ok ==> tier_index(old(self)@.tiers, new_name@) < 0,
            r is Ok ==> Some(final(self)@) == rename_spec(old(self)@, old_name@, new_name@) && recorded(
                *old(self),
                *final(self),
            ),
    {
        let k = match self.tier_position(old_name) {
            Some(k) => k,
            None => {
                return Err(TextGridError::NotFound(err_msg("tier not found")));
            },
        };
        if self.tier_position(new_name.as_str()).is_some() {
            return Err(TextGridError::ValidationFailure(err_msg("a tier of that name already exists")));
        }
        let ghost before = self@;
        let kept = new_name.clone();
        let mut t = self.tiers.remove(k);
        let previous = t.rename(new_name);
        let ghost tv = t@;
        self.tiers.insert(k, t);
        proof {
            lemma_replace_tier(old(self).tiers@, k as int, t);
            lemma_with_tier_back(before, k as int, tv);
            assert(TierV { name: previous@, ..tv } == before.tiers[k as int]);
        }
        self.record(Change::RenameTier(k, previous, kept), Ghost(before));
        Ok(())
    }

    /// Cuts `[start, end)` out of the first tier called `tier_name` and puts
    /// an empty interval there.
    pub fn insert_silence(&mut self, tier_name: &str, start: Time, end: Time) -> (r: Result<(), TextGridError>)
        requires
            old(self).wf(),
        ensures
            final(self).wf(),
            r is Ok <==> silence_spec(old(self)@, tier_name@, start, end) is Some,
            tier_index(old(self)@.tiers, tier_name@) < 0 ==> r matches Err(TextGridError::NotFound(_)),
            ({
                let k = tier_index(old(self)@.tiers, tier_name@);
                k >= 0 && old(self)@.tiers[k].tier_type != TierType::IntervalTier
                    ==> r matches Err(TextGridError::KindMismatch(_))
            }),
            ({
                let k = tier_index(old(self)@.tiers, tier_name@);
                let t = old(self)@.tiers[k];
                k >= 0 && t.tier_type == TierType::IntervalTier && !(t.xmin.val() <= start.val()
                    && end.val() <= t.xmax.val() && start.val() < end.val())
                    ==> r matches Err(TextGridError::InvalidRange(_))
            }),
            r is Err ==> untouched(*old(self), *final(self)),
            r is Ok ==> Some(final(self)@) == silence_spec(old(self)@, tier_name@, start, end) && recorded(
                *old(self),
                *final(self),
            ),
    {
        let k = match self.tier_position(tier_name) {
            Some(k) => k,
            None => {
                return Err(TextGridError::NotFound(err_msg("tier not found")));
            },
        };
        if self.tiers[k].tier_type != TierType::IntervalTier {
            return Err(TextGridError::KindMismatch(err_msg("silence goes into an interval tier")));
        }
        if start.lt(&self.tiers[k].xmin) || self.tiers[k].xmax.lt(&end) || end.le(&start) {
            return Err(TextGridError::InvalidRange(err_msg("invalid silence bounds")));
        }
        let ghost before = self@;
        let mut t = self.tiers.remove(k);
        let prev = clone_intervals(&t.intervals);
        let next = cut_silence(&t.intervals, start, end);
        let after = clone_intervals(&next);
        t.intervals = next;
        let ghost tv = t@;
        self.tiers.insert(k, t);
        proof {
            lemma_replace_tier(old(self).tiers@, k as int, t);
            lemma_with_tier_back(before, k as int, tv);
            lemma_same_names(before.tiers, k as int, tv, tier_name@);
            assert(TierV { intervals: intervals_view(prev@), ..tv } == before.tiers[k as int]);
        }
        self.record(Change::InsertSilence(tier_name.to_owned(), prev, after), Ghost(before));
        Ok(())
    }
}

impl Tier {
    /// Whether the outermost interval and point lie within `[lo, hi]`.
    pub fn data_within(&self, lo: &Time, hi: &Time) -> (r: bool)
        ensures
            r == data_within(self@, *lo, *hi),
    {
        let n = self.intervals.len();
        if n > 0 && (self.intervals[0].xmin.lt(lo) || hi.lt(&self.intervals[n - 1].xmax)) {
            return false;
        }
        let m = self.points.len();
        if m > 0 && (self.points[0].time.lt(lo) || hi.lt(&self.points[m - 1].time)) {
            return false;
        }
        true
    }
}

impl TextGrid {
    /// Moves the document bounds, and every tier's, to `[new_xmin, new_xmax]`.
    pub fn adjust_bounds(&mut self, new_xmin: Time, new_xmax: Time) -> (r: Result<(), TextGridError>)
        requires
            old(self).wf(),
        ensures
            final(self).wf(),
            r is Ok <==> adjust_spec(old(self)@, new_xmin, new_xmax) is Some,
            r is Err ==> (r matches Err(TextGridError::InvalidRange(_))) && untouched(*old(self), *final(self)),
            r is Ok ==> Some(final(self)@) == adjust_spec(old(self)@, new_xmin, new_xmax) && recorded(
                *old(self),
                *final(self),
            ),
    {
        if new_xmax.le(&new_xmin) {
            return Err(TextGridError::InvalidRange(err_msg("new xmin must be less than new xmax")));
        }
        let ghost before = self@;
        let mut bounds: Vec<(Time, Time)> = Vec::new();
        let mut i: usize = 0;
        while i < self.tiers.len()
            invariant
                i <= self.tiers.len(),
                before == self@,
                before == old(self)@,
                self.history == old(self).history,
                self.wf(),
                bounds@.len() == i,
                forall|j: int| 0 <= j < i ==> data_within(#[trigger] before.tiers[j], new_xmin, new_xmax),
                forall|j: int|
                    0 <= j < i ==> (#[trigger] bounds@[j]) == (before.tiers[j].xmin, before.tiers[j].xmax),
            decreases self.tiers.len() - i,
        {
            if !self.tiers[i].data_within(&new_xmin, &new_xmax) {
                assert(self@.tiers[i as int] == self.tiers@[i as int]@);
                assert(!data_within(before.tiers[i as int], new_xmin, new_xmax));
                return Err(TextGridError::InvalidRange(err_msg("new bounds must encompass all tier data")));
            }
            bounds.push((self.tiers[i].xmin, self.tiers[i].xmax));
            i = i + 1;
        }
        let old_xmin = self.xmin;
        let old_xmax = self.xmax;
        self.xmin = new_xmin;
        self.xmax = new_xmax;
        let mut k: usize = 0;
        while k < self.tiers.len()
            invariant
                k <= self.tiers.len(),
                self.history == old(self).history,
                before == old(self)@,
                self.tiers.len() == before.tiers.len(),
                self.xmin == new_xmin,
                self.xmax == new_xmax,
                forall|j: int|
                    0 <= j < k ==> (#[trigger] self@.tiers[j]) == (TierV {
                        xmin: new_xmin,
                        xmax: new_xmax,
                        ..before.tiers[j]
                    }),
                forall|j: int| k <= j < self.tiers.len() ==> (#[trigger] self@.tiers[j]) == before.tiers[j],
            decreases self.tiers.len() - k,
        {
            let ghost v0 = self.tiers@;
            let ghost d0 = self@;
            assert(d0.tiers[k as int] == before.tiers[k as int]);
            assert(tiers_view(v0)[k as int] == before.tiers[k as int]);
            let mut t = self.tiers.remove(k);
            t.xmin = new_xmin;
            t.xmax = new_xmax;
            self.tiers.insert(k, t);
            proof {
                lemma_replace_tier(v0, k as int, t);
                assert(self@.tiers[k as int] == t@);
                assert forall|j: int| 0 <= j < k implies (#[trigger] self@.tiers[j]) == (TierV {
                    xmin: new_xmin,
                    xmax: new_xmax,
                    ..before.tiers[j]
                }) by {
                    assert(self@.tiers[j] == tiers_view(v0)[j]);
                    assert(d0.tiers[j] == tiers_view(v0)[j]);
                }
                assert forall|j: int| k < j < self.tiers.len() implies (#[trigger] self@.tiers[j])
                    == before.tiers[j] by {
                    assert(self@.tiers[j] == tiers_view(v0)[j]);
                    assert(d0.tiers[j] == tiers_view(v0)[j]);
                }
            }
            k = k + 1;
        }
        proof {
            assert(self@.tiers =~= rebound(before, new_xmin, new_xmax).tiers);
            assert(restore_bounds(self@, old_xmin, old_xmax, bounds@).tiers =~= before.tiers);
        }
        self.record(Change::AdjustBounds(old_xmin, old_xmax, bounds, new_xmin, new_xmax), Ghost(before));
        Ok(())
    }
}

impl TextGrid {
    /// Puts `s` in place of the intervals of tier `k`.
    fn replace_intervals(&mut self, k: usize, s: Vec<Interval>)
        requires
            k < old(self).tiers.len(),
        ensures
            final(self)@ == with_intervals(old(self)@, k as int, intervals_view(s@)),
            final(self).history == old(self).history,
    {
        let ghost v0 = self.tiers@;
        let mut t = self.tiers.remove(k);
        t.intervals = s;
        self.tiers.insert(k, t);
        proof {
            lemma_replace_tier(v0, k as int, t);
        }
    }

    /// Puts `s` in place of the points of tier `k`.
    fn replace_points(&mut self, k: usize, s: Vec<Point>)
        requires
            k < old(self).tiers.len(),
        ensures
            final(self)@ == with_points(old(self)@, k as int, points_view(s@)),
            final(self).history == old(self).history,
    {
        let ghost v0 = self.tiers@;
        let mut t = self.tiers.remove(k);
        t.points = s;
        self.tiers.insert(k, t);
        proof {
            lemma_replace_tier(v0, k as int, t);
        }
    }

    /// Applies the inverse of `c` to the document, leaving the history alone.
    fn revert_change(&mut self, c: &Change) -> (r: Result<(), TextGridError>)
        ensures
            r is Ok <==> revert_spec(old(self)@, *c) is Some,
            r is Ok ==> Some(final(self)@) == revert_spec(old(self)@, *c),
            r is Err ==> final(self)@ == old(self)@,
            final(self).history == old(self).history,
    {
        let ghost d = self@;
        match c {
            Change::AddTier(_) | Change::MergeTiers(_, _, _, _) => {
                if self.tiers.len() == 0 {
                    return Err(TextGridError::NotFound(err_msg("no tier to take back")));
                }
                let _ = self.tiers.pop();
                assert(self@.tiers =~= d.tiers.drop_last());
                Ok(())
            },
            Change::RemoveTier(i, t) => {
                if *i > self.tiers.len() {
                    return Err(TextGridError::IndexOutOfRange(err_msg("tier position out of range")));
                }
                self.tiers.insert(*i, t.clone());
                assert(self@.tiers =~= d.tiers.insert(*i as int, t@));
                Ok(())
            },
            Change::AddInterval(name, i, _) => {
                let k = match self.tier_position(name.as_str()) {
                    Some(k) => k,
                    None => {
                        return Err(TextGridError::NotFound(err_msg("tier not found")));
                    },
                };
                if *i >= self.tiers[k].intervals.len() {
                    return Err(TextGridError::NotFound(err_msg("interval not found")));
                }
                let mut s = clone_intervals(&self.tiers[k].intervals);
                let _ = s.remove(*i);
                proof {
                    assert(intervals_view(s@) =~= d.tiers[k as int].intervals.remove(*i as int));
                }
                self.replace_intervals(k, s);
                Ok(())
            },
            Change::RemoveInterval(name, i, iv) => {
                let k = match self.tier_position(name.as_str()) {
                    Some(k) => k,
                    None => {
                        return Err(TextGridError::NotFound(err_msg("tier not found")));
                    },
                };
                if *i > self.tiers[k].intervals.len() {
                    return Err(TextGridError::IndexOutOfRange(err_msg("interval position out of range")));
                }
                let mut s = clone_intervals(&self.tiers[k].intervals);
                s.insert(*i, iv.clone());
                proof {
                    assert(intervals_view(s@) =~= d.tiers[k as int].intervals.insert(*i as int, iv@));
                }
                self.replace_intervals(k, s);
                Ok(())
            },
            Change::AddPoint(name, i, _) => {
                let k = match self.tier_position(name.as_str()) {
                    Some(k) => k,
                    None => {
                        return Err(TextGridError::NotFound(err_msg("tier not found")));
                    },
                };
                if *i >= self.tiers[k].points.len() {
                    return Err(TextGridError::NotFound(err_msg("point not found")));
                }
                let mut s = clone_points(&self.tiers[k].points);
                let _ = s.remove(*i);
                proof {
                    assert(points_view(s@) =~= d.tiers[k as int].points.remove(*i as int));
                }
                self.replace_points(k, s);
                Ok(())
            },
            Change::RemovePoint(name, i, pt) => {
                let k = match self.tier_position(name.as_str()) {
                    Some(k) => k,
                    None => {
                        return Err(TextGridError::NotFound(err_msg("tier not found")));
                    },
                };
                if *i > self.tiers[k].points.len() {
                    return Err(TextGridError::IndexOutOfRange(err_msg("point position out of range")));
                }
                let mut s = clone_points(&self.tiers[k].points);
                s.insert(*i, pt.clone());
                proof {
                    assert(points_view(s@) =~= d.tiers[k as int].points.insert(*i as int, pt@));
                }
                self.replace_points(k, s);
                Ok(())
            },
            Change::SplitInterval(name, i, orig, _) => {
                let k = match self.tier_position(name.as_str()) {
                    Some(k) => k,
                    None => {
                        return Err(TextGridError::NotFound(err_msg("tier not found")));
                    },
                };
                if self.tiers[k].intervals.len() < 2 || *i >= self.tiers[k].intervals.len() - 1 {
                    return Err(TextGridError::NotFound(err_msg("split halves not found")));
                }
                let mut s = clone_intervals(&self.tiers[k].intervals);
                s.set(*i, orig.clone());
                let _ = s.remove(*i + 1);
                proof {
                    assert(intervals_view(s@) =~= d.tiers[k as int].intervals.update(*i as int, orig@).remove(
                        *i + 1,
                    ));
                }
                self.replace_intervals(k, s);
                Ok(())
            },
            Change::MergeIntervals(name, before, _) | Change::InsertSilence(name, before, _) => {
                let k = match self.tier_position(name.as_str()) {
                    Some(k) => k,
                    None => {
                        return Err(TextGridError::NotFound(err_msg("tier not found")));
                    },
                };
                self.replace_intervals(k, clone_intervals(before));
                Ok(())
            },
            Change::RenameTier(i, old_name, _) => {
                if *i >= self.tiers.len() {
                    return Err(TextGridError::IndexOutOfRange(err_msg("tier position out of range")));
                }
                let ghost v0 = self.tiers@;
                let mut t = self.tiers.remove(*i);
                t.name = old_name.clone();
                self.tiers.insert(*i, t);
                proof {
                    lemma_replace_tier(v0, *i as int, t);
                }
                Ok(())
            },
            Change::AdjustBounds(lo, hi, b, _, _) => {
                if b.len() != self.tiers.len() {
                    return Err(TextGridError::NotFound(err_msg("tier bounds not recorded")));
                }
                self.xmin = *lo;
                self.xmax = *hi;
                let mut k: usize = 0;
                while k < self.tiers.len()
                    invariant
                        k <= self.tiers.len(),
                        self.history == old(self).history,
                        self.tiers.len() == d.tiers.len(),
                        b@.len() == d.tiers.len(),
                        self.xmin == *lo,
                        self.xmax == *hi,
                        forall|j: int|
                            0 <= j < k ==> (#[trigger] self@.tiers[j]) == (TierV {
                                xmin: b@[j].0,
                                xmax: b@[j].1,
                                ..d.tiers[j]
                            }),
                        forall|j: int| k <= j < self.tiers.len() ==> (#[trigger] self@.tiers[j]) == d.tiers[j],
                    decreases self.tiers.len() - k,
                {
                    let ghost v0 = self.tiers@;
                    let ghost d0 = self@;
                    assert(d0.tiers[k as int] == d.tiers[k as int]);
                    let mut t = self.tiers.remove(k);
                    t.xmin = b[k].0;
                    t.xmax = b[k].1;
                    self.tiers.insert(k, t);
                    proof {
                        lemma_replace_tier(v0, k as int, t);
                        assert forall|j: int| 0 <= j < k implies (#[trigger] self@.tiers[j]) == (TierV {
                            xmin: b@[j].0,
                            xmax: b@[j].1,
                            ..d.tiers[j]
                        }) by {
                            assert(d0.tiers[j] == tiers_view(v0)[j]);
                        }
                        assert forall|j: int| k < j < self.tiers.len() implies (#[trigger] self@.tiers[j])
                            == d.tiers[j] by {
                            assert(d0.tiers[j] == tiers_view(v0)[j]);
                        }
                    }
                    k = k + 1;
                }
                assert(self@.tiers =~= restore_bounds(d, *lo, *hi, b@).tiers);
                Ok(())
            },
        }
    }
}

impl TextGrid {
    /// Undoes the newest recorded change. Every successful edit adds the
    /// value before it to `undo_states` (see `recorded`), and each undo
    /// returns the newest of them and moves the current value to
    /// `redo_states`; so undoing once per edit, in reverse order, gives back
    /// the value before the first edit, for up to `HISTORY_CAPACITY` edits.
    pub fn undo(&mut self) -> (r: Result<(), TextGridError>)
        requires
            old(self).wf(),
        ensures
            final(self).wf(),
            old(self).history.undo_states().len() == 0 <==> (r matches Err(TextGridError::NothingToUndo)),
            r is Ok <==> old(self).history.undo_states().len() > 0,
            r is Err ==> untouched(*old(self), *final(self)),
            r is Ok ==> {
                &&& final(self)@ == old(self).history.undo_states().last()
                &&& final(self).history.undo_states() == old(self).history.undo_states().drop_last()
                &&& final(self).history.redo_states() == old(self).history.redo_states().push(old(self)@)
            },
    {
        let ghost cur = self@;
        let ghost h0 = self.history;
        let n = self.history.undo.len();
        if n == 0 {
            return Err(TextGridError::NothingToUndo);
        }
        proof {
            assert(step_ok(h0.past@[n - 1], h0.undo@[n - 1], h0.after_undo(n - 1, cur)));
        }
        let c = self.history.undo.pop().unwrap();
        let res = self.revert_change(&c);
        match res {
            Ok(()) => {},
            Err(e) => {
                // A consistent history always reverts.
                assert(false);
                self.history.undo.push(c);
                return Err(e);
            },
        }
        self.history.past = Ghost(self.history.past@.drop_last());
        self.history.redo.push(c);
        self.history.future = Ghost(self.history.future@.push(cur));
        proof {
            let h = self.history;
            let now = self@;
            assert(now == h0.past@[n - 1]);
            assert forall|i: int| 0 <= i < h.undo@.len() implies step_ok(
                #[trigger] h.past@[i],
                h.undo@[i],
                h.after_undo(i, now),
            ) by {
                assert(h.past@[i] == h0.past@[i]);
                assert(h.undo@[i] == h0.undo@[i]);
                assert(h0.after_undo(i, cur) == h.after_undo(i, now));
            }
            assert forall|j: int| 0 <= j < h.redo@.len() implies step_ok(
                h.before_redo(j, now),
                h.redo@[j],
                #[trigger] h.future@[j],
            ) by {
                if j < h0.redo@.len() {
                    assert(h.future@[j] == h0.future@[j]);
                    assert(h.redo@[j] == h0.redo@[j]);
                    assert(h0.before_redo(j, cur) == h.before_redo(j, now));
                }
            }
        }
        Ok(())
    }

    /// Sets the intervals of the first tier called `name`, as a recorded edit.
    fn set_intervals(&mut self, name: &str, s: Vec<Interval>) -> (r: Result<(), TextGridError>)
        requires
            old(self).wf(),
        ensures
            final(self).wf(),
            r is Ok <==> set_intervals_spec(old(self)@, name@, intervals_view(s@)) is Some,
            r is Err ==> untouched(*old(self), *final(self)),
            r is Ok ==> Some(final(self)@) == set_intervals_spec(old(self)@, name@, intervals_view(s@)) && recorded(
                *old(self),
                *final(self),
            ),
    {
        let k = match self.tier_position(name) {
            Some(k) => k,
            None => {
                return Err(TextGridError::NotFound(err_msg("tier not found")));
            },
        };
        let ghost before = self@;
        let prev = clone_intervals(&self.tiers[k].intervals);
        let after = clone_intervals(&s);
        self.replace_intervals(k, s);
        proof {
            let tv = self@.tiers[k as int];
            lemma_with_tier_back(before, k as int, tv);
            lemma_same_names(before.tiers, k as int, tv, name@);
            assert(TierV { intervals: intervals_view(prev@), ..tv } == before.tiers[k as int]);
        }
        self.record(Change::InsertSilence(name.to_owned(), prev, after), Ghost(before));
        Ok(())
    }

    /// Replays `c` through the edit it records.
    fn replay(&mut self, c: Change) -> (r: Result<(), TextGridError>)
        requires
            old(self).wf(),
        ensures
            final(self).wf(),
            r is Ok <==> apply_spec(old(self)@, c) is Some,
            r is Err ==> untouched(*old(self), *final(self)),
            r is Ok ==> Some(final(self)@) == apply_spec(old(self)@, c) && recorded(*old(self), *final(self)),
    {
        match c {
            Change::AddTier(t) => self.add_tier(t),
            Change::MergeTiers(_, _, _, t) => self.add_tier(t),
            Change::RemoveTier(i, _) => self.remove_tier(i),
            Change::AddInterval(name, _, iv) => self.tier_add_interval(name.as_str(), iv),
            Change::RemoveInterval(name, i, _) => self.tier_remove_interval(name.as_str(), i),
            Change::AddPoint(name, _, pt) => self.tier_add_point(name.as_str(), pt),
            Change::RemovePoint(name, i, _) => self.tier_remove_point(name.as_str(), i),
            Change::SplitInterval(name, i, _, left) => self.tier_split_interval(name.as_str(), i, left.xmax),
            Change::MergeIntervals(name, _, _) => self.tier_merge_intervals(name.as_str()),
            Change::RenameTier(_, old_name, new_name) => self.rename_tier(old_name.as_str(), new_name),
            Change::AdjustBounds(_, _, _, lo, hi) => self.adjust_bounds(lo, hi),
            Change::InsertSilence(name, _, after) => self.set_intervals(name.as_str(), after),
        }
    }

    /// Redoes the newest undone change by running its edit again. It
    /// returns the newest of `redo_states` and keeps the rest, so redoing
    /// once per undo gives back the value after the last edit.
    pub fn redo(&mut self) -> (r: Result<(), TextGridError>)
        requires
            old(self).wf(),
        ensures
            final(self).wf(),
            old(self).history.redo_states().len() == 0 <==> (r matches Err(TextGridError::NothingToRedo)),
            r is Ok <==> old(self).history.redo_states().len() > 0,
            r is Err ==> untouched(*old(self), *final(self)),
            r is Ok ==> {
                &&& final(self)@ == old(self).history.redo_states().last()
                &&& final(self).history.redo_states() == old(self).history.redo_states().drop_last()
                &&& final(self).history.undo_states() == push_bounded(old(self).history.undo_states(), old(self)@)
            },
    {
        let ghost cur = self@;
        let ghost h0 = self.history;
        let n = self.history.redo.len();
        if n == 0 {
            return Err(TextGridError::NothingToRedo);
        }
        proof {
            assert(step_ok(h0.before_redo(n - 1, cur), h0.redo@[n - 1], h0.future@[n - 1]));
        }
        let mut rest: Vec<Change> = Vec::new();
        core::mem::swap(&mut rest, &mut self.history.redo);
        let c = rest.pop().unwrap();
        let ghost rest_future = h0.future@.drop_last();
        self.history.future = Ghost(Seq::empty());
        assert(self.wf());
        let res = self.replay(c);
        match res {
            Ok(()) => {},
            Err(_) => {
                // A consistent history always replays.
                assert(false);
                return Err(TextGridError::NothingToRedo);
            },
        }
        self.history.redo = rest;
        self.history.future = Ghost(rest_future);
        proof {
            let h = self.history;
            let now = self@;
            assert(now == h0.future@[n - 1]);
            assert forall|j: int| 0 <= j < h.redo@.len() implies step_ok(
                h.before_redo(j, now),
                h.redo@[j],
                #[trigger] h.future@[j],
            ) by {
                assert(h.future@[j] == h0.future@[j]);
                assert(h.redo@[j] == h0.redo@[j]);
                assert(h0.before_redo(j, cur) == h.before_redo(j, now));
            }
        }
        Ok(())
    }
}

/// For each tier in order, its position and its matches, keeping only the
/// tiers with at least one match.
pub open spec fn query_rows(tiers: Seq<TierV>, matches: spec_fn(TierV) -> Seq<IntervalV>) -> Seq<(int, Seq<IntervalV>)>
    decreases tiers.len(),
{
    if tiers.len() == 0 {
        Seq::empty()
    } else {
        let rest = query_rows(tiers.drop_last(), matches);
        let m = matches(tiers.last());
        if m.len() > 0 {
            rest.push(((tiers.len() - 1) as int, m))
        } else {
            rest
        }
    }
}

pub open spec fn point_rows(tiers: Seq<TierV>, t: Time) -> Seq<(int, Seq<PointV>)>
    decreases tiers.len(),
{
    if tiers.len() == 0 {
        Seq::empty()
    } else {
        let rest = point_rows(tiers.drop_last(), t);
        let last = tiers.last();
        let m = if last.tier_type == TierType::PointTier {
            crate::model::filter_at_time(last.points, t)
        } else {
            Seq::empty()
        };
        if m.len() > 0 {
            rest.push(((tiers.len() - 1) as int, m))
        } else {
            rest
        }
    }
}

pub open spec fn rows_view(r: Seq<(usize, Vec<Interval>)>) -> Seq<(int, Seq<IntervalV>)> {
    r.map_values(|e: (usize, Vec<Interval>)| (e.0 as int, intervals_view(e.1@)))
}

pub open spec fn point_rows_view(r: Seq<(usize, Vec<Point>)>) -> Seq<(int, Seq<PointV>)> {
    r.map_values(|e: (usize, Vec<Point>)| (e.0 as int, points_view(e.1@)))
}

pub open spec fn by_time(t: Time) -> spec_fn(TierV) -> Seq<IntervalV> {
    |tv: TierV| if tv.tier_type == TierType::IntervalTier {
        crate::model::filter_covering(tv.intervals, t)
    } else {
        Seq::empty()
    }
}

pub open spec fn by_text(needle: Seq<char>) -> spec_fn(TierV) -> Seq<IntervalV> {
    |tv: TierV| if tv.tier_type == TierType::IntervalTier {
        crate::model::filter_text(tv.intervals, needle)
    } else {
        Seq::empty()
    }
}

impl TextGrid {
    /// The intervals of every tier that contain `time`, by tier position.
    pub fn query_intervals_by_time(&self, time: Time) -> (r: Vec<(usize, Vec<Interval>)>)
        ensures
            rows_view(r@) == query_rows(self@.tiers, by_time(time)),
    {
        let ghost ts = self@.tiers;
        let mut r: Vec<(usize, Vec<Interval>)> = Vec::new();
        let mut k: usize = 0;
        while k < self.tiers.len()
            invariant
                k <= self.tiers.len(),
                ts == self@.tiers,
                rows_view(r@) == query_rows(ts.subrange(0, k as int), by_time(time)),
            decreases self.tiers.len() - k,
        {
            let ghost sub = ts.subrange(0, k + 1);
            assert(sub.drop_last() =~= ts.subrange(0, k as int));
            assert(sub.last() == self.tiers@[k as int]@);
            let m = self.tiers[k].find_intervals_by_time(time);
            if m.len() > 0 {
                let ghost r0 = rows_view(r@);
                let ghost mv = intervals_view(m@);
                r.push((k, m));
                assert(rows_view(r@) =~= r0.push((k as int, mv)));
            }
            k = k + 1;
        }
        assert(ts.subrange(0, k as int) =~= ts);
        r
    }

    /// The points of every tier placed exactly at `time`, by tier position.
    pub fn query_points_by_time(&self, time: Time) -> (r: Vec<(usize, Vec<Point>)>)
        ensures
            point_rows_view(r@) == point_rows(self@.tiers, time),
    {
        let ghost ts = self@.tiers;
        let mut r: Vec<(usize, Vec<Point>)> = Vec::new();
        let mut k: usize = 0;
        while k < self.tiers.len()
            invariant
                k <= self.tiers.len(),
                ts == self@.tiers,
                point_rows_view(r@) == point_rows(ts.subrange(0, k as int), time),
            decreases self.tiers.len() - k,
        {
            let ghost sub = ts.subrange(0, k + 1);
            assert(sub.drop_last() =~= ts.subrange(0, k as int));
            assert(sub.last() == self.tiers@[k as int]@);
            let m = self.tiers[k].find_points_by_time(time);
            if m.len() > 0 {
                let ghost r0 = point_rows_view(r@);
                let ghost mv = points_view(m@);
                r.push((k, m));
                assert(point_rows_view(r@) =~= r0.push((k as int, mv)));
            }
            k = k + 1;
        }
        assert(ts.subrange(0, k as int) =~= ts);
        r
    }

    /// The intervals of every tier whose label contains `text`, by tier position.
    pub fn query_intervals_by_text(&self, text: &str) -> (r: Vec<(usize, Vec<Interval>)>)
        ensures
            rows_view(r@) == query_rows(self@.tiers, by_text(text@)),
    {
        let ghost ts = self@.tiers;
        let mut r: Vec<(usize, Vec<Interval>)> = Vec::new();
        let mut k: usize = 0;
        while k < self.tiers.len()
            invariant
                k <= self.tiers.len(),
                ts == self@.tiers,
                rows_view(r@) == query_rows(ts.subrange(0, k as int), by_text(text@)),
            decreases self.tiers.len() - k,
        {
            let ghost sub = ts.subrange(0, k + 1);
            assert(sub.drop_last() =~= ts.subrange(0, k as int));
            assert(sub.last() == self.tiers@[k as int]@);
            let m = self.tiers[k].find_intervals_by_text(text);
            if m.len() > 0 {
                let ghost r0 = rows_view(r@);
                let ghost mv = intervals_view(m@);
                r.push((k, m));
                assert(rows_view(r@) =~= r0.push((k as int, mv)));
            }
            k = k + 1;
        }
        assert(ts.subrange(0, k as int) =~= ts);
        r
    }
}

/// `out` is what the left-to-right sweep emits from `cur` followed by
/// `rest`: where the current interval overlaps the next one, the strategy
/// `f` is asked; what it returns (as its `ensures` allows) replaces the
/// current interval, and `None` emits the current one unmerged.
pub open spec fn sweep_ok<F: Fn(&Interval, &Interval) -> Option<Interval>>(
    f: F,
    cur: Interval,
    rest: Seq<Interval>,
    out: Seq<Interval>,
) -> bool
    decreases rest.len(),
{
    if rest.len() == 0 {
        out == seq![cur]
    } else if cur.xmax.val() > rest[0].xmin.val() {
        exists|m: Option<Interval>|
            #![trigger f.ensures((&cur, &rest[0]), m)]
            f.ensures((&cur, &rest[0]), m) && match m {
                Some(x) => sweep_ok(f, x, rest.drop_first(), out),
                None => out.len() > 0 && out[0] == cur && sweep_ok(f, rest[0], rest.drop_first(), out.drop_first()),
            }
    } else {
        out.len() > 0 && out[0] == cur && sweep_ok(f, rest[0], rest.drop_first(), out.drop_first())
    }
}

/// The sweep over a whole list (nothing comes of an empty one).
pub open spec fn swept<F: Fn(&Interval, &Interval) -> Option<Interval>>(
    f: F,
    input: Seq<Interval>,
    out: Seq<Interval>,
) -> bool {
    if input.len() == 0 {
        out.len() == 0
    } else {
        sweep_ok(f, input[0], input.drop_first(), out)
    }
}

/// The tier a merge appends: an interval tier over the document bounds.
pub open spec fn merged_tier(d: DocV, name: Seq<char>, ivs: Seq<IntervalV>) -> TierV {
    TierV { name, tier_type: TierType::IntervalTier, xmin: d.xmin, xmax: d.xmax, intervals: ivs, points: Seq::empty() }
}

/// Both tiers to merge exist.
pub open spec fn both_found(d: DocV, name1: Seq<char>, name2: Seq<char>) -> bool {
    tier_index(d.tiers, name1) >= 0 && tier_index(d.tiers, name2) >= 0
}

/// Both tiers to merge exist and are interval tiers.
pub open spec fn both_interval(d: DocV, name1: Seq<char>, name2: Seq<char>) -> bool {
    both_found(d, name1, name2) && d.tiers[tier_index(d.tiers, name1)].tier_type == TierType::IntervalTier
        && d.tiers[tier_index(d.tiers, name2)].tier_type == TierType::IntervalTier
}

/// The two tiers to merge exist and are interval tiers, and the new name is free.
pub open spec fn mergeable(d: DocV, name1: Seq<char>, name2: Seq<char>, new_name: Seq<char>) -> bool {
    both_interval(d, name1, name2) && tier_index(d.tiers, new_name) < 0
}

/// Runs the sweep of `sweep_ok` over `input`.
pub fn sweep<F: Fn(&Interval, &Interval) -> Option<Interval>>(input: Vec<Interval>, f: &F) -> (r: Vec<Interval>)
    requires
        forall|x: &Interval, y: &Interval| f.requires((x, y)),
    ensures
        swept(*f, input@, r@),
{
    let ghost i0 = input@;
    let mut remaining = input;
    let mut merged: Vec<Interval> = Vec::new();
    if remaining.len() == 0 {
        return merged;
    }
    let mut current = remaining.remove(0);
    let ghost c0 = current;
    let ghost r0 = remaining@;
    assert(r0 =~= i0.drop_first());
    assert forall|o: Seq<Interval>| sweep_ok(*f, current, remaining@, o) implies sweep_ok(*f, c0, r0, merged@ + o) by {
        assert(merged@ + o =~= o);
    }
    while remaining.len() > 0
        invariant
            forall|x: &Interval, y: &Interval| f.requires((x, y)),
            forall|o: Seq<Interval>| sweep_ok(*f, current, remaining@, o) ==> sweep_ok(*f, c0, r0, merged@ + o),
        decreases remaining.len(),
    {
        let ghost cur = current;
        let ghost rest = remaining@;
        let ghost m0 = merged@;
        let next = remaining.remove(0);
        assert(rest.drop_first() =~= remaining@);
        assert(rest[0] == next);
        if next.xmin.lt(&current.xmax) {
            let res = f(&current, &next);
            match res {
                Some(m) => {
                    proof {
                        assert forall|o: Seq<Interval>| sweep_ok(*f, m, remaining@, o) implies sweep_ok(
                            *f,
                            c0,
                            r0,
                            merged@ + o,
                        ) by {
                            assert(f.ensures((&cur, &rest[0]), Some(m)));
                            assert(sweep_ok(*f, cur, rest, o));
                        }
                    }
                    current = m;
                },
                None => {
                    merged.push(current);
                    proof {
                        assert forall|o: Seq<Interval>| sweep_ok(*f, next, remaining@, o) implies sweep_ok(
                            *f,
                            c0,
                            r0,
                            merged@ + o,
                        ) by {
                            let o2 = seq![cur] + o;
                            assert(o2.drop_first() =~= o);
                            assert(f.ensures((&cur, &rest[0]), None::<Interval>));
                            assert(sweep_ok(*f, cur, rest, o2));
                            assert(m0 + o2 =~= merged@ + o);
                        }
                    }
                    current = next;
                },
            }
        } else {
            merged.push(current);
            proof {
                assert forall|o: Seq<Interval>| sweep_ok(*f, next, remaining@, o) implies sweep_ok(
                    *f,
                    c0,
                    r0,
                    merged@ + o,
                ) by {
                    let o2 = seq![cur] + o;
                    assert(o2.drop_first() =~= o);
                    assert(sweep_ok(*f, cur, rest, o2));
                    assert(m0 + o2 =~= merged@ + o);
                }
            }
            current = next;
        }
    }
    let ghost m0 = merged@;
    let ghost last = current;
    merged.push(current);
    proof {
        assert(sweep_ok(*f, last, remaining@, seq![last]));
        assert(m0 + seq![last] =~= merged@);
    }
    merged
}

/// The default merge of two overlapping intervals: when the texts are
/// equal or one is empty, one interval from the first's start to the later
/// end, carrying the non-empty text; otherwise none.
pub open spec fn default_merge(a: IntervalV, b: IntervalV) -> Option<IntervalV> {
    if a.text == b.text || a.text.len() == 0 || b.text.len() == 0 {
        Some(
            IntervalV {
                xmin: a.xmin,
                xmax: if a.xmax.val() < b.xmax.val() { b.xmax } else { a.xmax },
                text: if a.text.len() == 0 { b.text } else { a.text },
            },
        )
    } else {
        None
    }
}

/// Merges two overlapping intervals as `default_merge` says.
pub fn combine_text_or_empty(a: &Interval, b: &Interval) -> (r: Option<Interval>)
    ensures
        r is Some <==> default_merge(a@, b@) is Some,
        r matches Some(m) ==> default_merge(a@, b@) == Some(m@),
{
    if a.text == b.text || a.text.as_str().is_empty() || b.text.as_str().is_empty() {
        let text = if a.text.as_str().is_empty() {
            b.text.clone()
        } else {
            a.text.clone()
        };
        Some(Interval { xmin: a.xmin, xmax: a.xmax.max(&b.xmax), text })
    } else {
        None
    }
}

impl TextGrid {
    /// Merges the interval tiers `name1` and `name2` into a new tier
    /// `new_name`, appended over the document bounds. Both tiers' intervals
    /// are taken in start order and swept left to right; overlapping
    /// neighbours are offered to `merge_strategy`, and those it declines stay
    /// as they are, overlapping.
    pub fn merge_tiers_with_strategy<F: Fn(&Interval, &Interval) -> Option<Interval>>(
        &mut self,
        name1: &str,
        name2: &str,
        new_name: String,
        merge_strategy: F,
    ) -> (r: Result<(), TextGridError>)
        requires
            old(self).wf(),
            forall|x: &Interval, y: &Interval| merge_strategy.requires((x, y)),
        ensures
            final(self).wf(),
            tier_index(old(self)@.tiers, name1@) < 0 || tier_index(old(self)@.tiers, name2@) < 0 ==> (r matches Err(
                TextGridError::NotFound(_),
            )),
            r is Ok <==> mergeable(old(self)@, name1@, name2@, new_name@),
            both_found(old(self)@, name1@, name2@) && !both_interval(old(self)@, name1@, name2@) ==> (r matches Err(
                TextGridError::KindMismatch(_),
            )),
            both_interval(old(self)@, name1@, name2@) && tier_index(old(self)@.tiers, new_name@) >= 0 ==> (r matches Err(
                TextGridError::ValidationFailure(_),
            )),
            r is Err ==> untouched(*old(self), *final(self)),
            r is Ok ==> recorded(*old(self), *final(self)) && exists|input: Seq<Interval>, out: Seq<Interval>|
                #![trigger swept(merge_strategy, input, out)]
                {
                    let d = old(self)@;
                    &&& intervals_view(input) == sort_by_start(
                        d.tiers[tier_index(d.tiers, name1@)].intervals + d.tiers[tier_index(
                            d.tiers,
                            name2@,
                        )].intervals,
                    )
                    &&& swept(merge_strategy, input, out)
                    &&& final(self)@ == (DocV {
                        tiers: d.tiers.push(merged_tier(d, new_name@, intervals_view(out))),
                        ..d
                    })
                },
    {
        let k1 = match self.tier_position(name1) {
            Some(k) => k,
            None => {
                return Err(TextGridError::NotFound(err_msg("first tier not found")));
            },
        };
        let k2 = match self.tier_position(name2) {
            Some(k) => k,
            None => {
                return Err(TextGridError::NotFound(err_msg("second tier not found")));
            },
        };
        if self.tiers[k1].tier_type != TierType::IntervalTier || self.tiers[k2].tier_type != TierType::IntervalTier {
            return Err(TextGridError::KindMismatch(err_msg("only interval tiers can be merged")));
        }
        if self.tier_position(new_name.as_str()).is_some() {
            return Err(TextGridError::ValidationFailure(err_msg("a tier of that name already exists")));
        }
        let ghost before = self@;
        let input = sorted_union(&self.tiers[k1].intervals, &self.tiers[k2].intervals);
        let ghost iv = input@;
        let out = sweep(input, &merge_strategy);
        let ghost ov = out@;
        let tier = Tier {
            name: new_name,
            tier_type: TierType::IntervalTier,
            xmin: self.xmin,
            xmax: self.xmax,
            intervals: out,
            points: Vec::new(),
        };
        assert(points_view(tier.points@) =~= Seq::<PointV>::empty());
        let kept = tier.clone();
        self.tiers.push(tier);
        proof {
            assert(self@.tiers =~= before.tiers.push(kept@));
            assert(self@.tiers.drop_last() =~= before.tiers);
        }
        self.record(Change::MergeTiers(name1.to_owned(), name2.to_owned(), kept.name.clone(), kept), Ghost(before));
        Ok(())
    }

    /// Merges two interval tiers with `combine_text_or_empty` as the strategy.
    pub fn merge_tiers(&mut self, name1: &str, name2: &str, new_name: String) -> (r: Result<(), TextGridError>)
        requires
            old(self).wf(),
        ensures
            final(self).wf(),
            tier_index(old(self)@.tiers, name1@) < 0 || tier_index(old(self)@.tiers, name2@) < 0 ==> (r matches Err(
                TextGridError::NotFound(_),
            )),
            r is Ok <==> mergeable(old(self)@, name1@, name2@, new_name@),
            both_found(old(self)@, name1@, name2@) && !both_interval(old(self)@, name1@, name2@) ==> (r matches Err(
                TextGridError::KindMismatch(_),
            )),
            both_interval(old(self)@, name1@, name2@) && tier_index(old(self)@.tiers, new_name@) >= 0 ==> (r matches Err(
                TextGridError::ValidationFailure(_),
            )),
            r is Err ==> untouched(*old(self), *final(self)),
            r is Ok ==> recorded(*old(self), *final(self)) && exists|input: Seq<Interval>, out: Seq<Interval>|
                #![trigger swept(combine_text_or_empty, input, out)]
                {
                    let d = old(self)@;
                    &&& intervals_view(input) == sort_by_start(
                        d.tiers[tier_index(d.tiers, name1@)].intervals + d.tiers[tier_index(
                            d.tiers,
                            name2@,
                        )].intervals,
                    )
                    &&& swept(combine_text_or_empty, input, out)
                    &&& final(self)@ == (DocV {
                        tiers: d.tiers.push(merged_tier(d, new_name@, intervals_view(out))),
                        ..d
                    })
                },
    {
        self.merge_tiers_with_strategy(name1, name2, new_name, combine_text_or_empty)
    }
}

/// The undo states after recording one edit per state of `xs`, in order,
/// starting from an empty history.
pub open spec fn recorded_states(xs: Seq<DocV>) -> Seq<DocV>
    decreases xs.len(),
{
    if xs.len() == 0 {
        Seq::empty()
    } else {
        push_bounded(recorded_states(xs.drop_last()), xs.last())
    }
}

/// The history is bounded: after `n` recorded edits from an empty history,
/// exactly the newest `min(n, HISTORY_CAPACITY)` of them can be undone, so
/// past the capacity the oldest edits are lost (and `undo` reports
/// `NothingToUndo` once those are used up).
pub proof fn lemma_history_bound(xs: Seq<DocV>)
    ensures
        recorded_states(xs).len() == if xs.len() < HISTORY_CAPACITY {
            xs.len()
        } else {
            HISTORY_CAPACITY as nat
        },
        recorded_states(xs) == xs.subrange(xs.len() - recorded_states(xs).len(), xs.len() as int),
    decreases xs.len(),
{
    if xs.len() > 0 {
        let init = xs.drop_last();
        lemma_history_bound(init);
        let r = recorded_states(init);
        if r.len() < HISTORY_CAPACITY {
            assert(r.push(xs.last()) =~= xs.subrange(xs.len() - (r.len() + 1), xs.len() as int));
        } else {
            assert(r.drop_first().push(xs.last()) =~= xs.subrange(
                xs.len() - HISTORY_CAPACITY,
                xs.len() as int,
            ));
        }
    } else {
        assert(xs.subrange(0, 0) =~= Seq::<DocV>::empty());
    }
}

/// Splitting an interval strictly inside it and merging right away gives
/// the interval back.
pub proof fn lemma_split_then_merge(iv: IntervalV, t: Time)
    requires
        iv.xmin.val() < t.val() < iv.xmax.val(),
    ensures
        merged_intervals(
            seq![IntervalV { xmin: iv.xmin, xmax: t, text: iv.text }, IntervalV { xmin: t, xmax: iv.xmax, text: iv.text }],
        ) == seq![iv],
{
    let left = IntervalV { xmin: iv.xmin, xmax: t, text: iv.text };
    let right = IntervalV { xmin: t, xmax: iv.xmax, text: iv.text };
    let s = seq![left, right];
    assert(s.drop_first() =~= seq![right]);
    assert(seq![right].drop_first() =~= Seq::<IntervalV>::empty());
    assert(crate::model::coalesce(iv, Seq::<IntervalV>::empty()) == seq![iv]);
}

/// On a tier holding one interval, splitting it and then merging the tier's
/// intervals leaves the document as it was.
pub proof fn lemma_split_merge_document(d: DocV, name: Seq<char>, t: Time)
    requires
        tier_index(d.tiers, name) >= 0,
        d.tiers[tier_index(d.tiers, name)].tier_type == TierType::IntervalTier,
        d.tiers[tier_index(d.tiers, name)].intervals.len() == 1,
        d.tiers[tier_index(d.tiers, name)].intervals[0].xmin.val() < t.val(),
        t.val() < d.tiers[tier_index(d.tiers, name)].intervals[0].xmax.val(),
    ensures
        split_spec(d, name, 0, t) matches Some(d1) && merge_spec(d1, name) == Some(d),
{
    let k = tier_index(d.tiers, name);
    let iv = d.tiers[k].intervals[0];
    let d1 = split_spec(d, name, 0, t)->0;
    lemma_split_then_merge(iv, t);
    lemma_tier_index(d.tiers, name, k);
    let t1 = d1.tiers[k];
    lemma_same_names(d.tiers, k, t1, name);
    let left = IntervalV { xmin: iv.xmin, xmax: t, text: iv.text };
    let right = IntervalV { xmin: t, xmax: iv.xmax, text: iv.text };
    assert(d.tiers[k].intervals.update(0, left).insert(1, right) =~= seq![left, right]);
    lemma_sort_two(left, right);
    assert(seq![iv] =~= d.tiers[k].intervals);
    assert(merge_spec(d1, name)->0.tiers =~= d.tiers);
}

} // verus!
