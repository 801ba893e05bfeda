//! The document's time-consistency rules, as a predicate and as a check.
use vstd::prelude::*;

use crate::grid::{DocV, TextGrid};
use crate::model::{
    Interval, IntervalV, Point, PointV, TextGridError, Tier, TierType, TierV, err_msg,
    intervals_view, points_view,
};
use crate::time::Time;

verus! {

/// The intervals tile `[lo, hi]` exactly: each is non-empty, the first starts
/// at `lo`, each ends where the next starts, and the last ends at `hi`.
/// An empty list is accepted.
pub open spec fn intervals_tile(s: Seq<IntervalV>, lo: Time, hi: Time) -> bool {
    s.len() > 0 ==> {
        &&& s[0].xmin.val() == lo.val()
        &&& forall|i: int| 0 <= i < s.len() ==> (#[trigger] s[i]).xmin.val() < s[i].xmax.val()
        &&& forall|i: int| 0 <= i < s.len() - 1 ==> (#[trigger] s[i]).xmax.val() == s[i + 1].xmin.val()
        &&& s[s.len() - 1].xmax.val() == hi.val()
    }
}

pub open spec fn points_within(s: Seq<PointV>, lo: Time, hi: Time) -> bool {
    forall|i: int| 0 <= i < s.len() ==> lo.val() <= (#[trigger] s[i]).time.val() && s[i].time.val() <= hi.val()
}

pub open spec fn tier_valid(t: TierV, d: DocV) -> bool {
    &&& d.xmin.val() <= t.xmin.val()
    &&& t.xmax.val() <= d.xmax.val()
    &&& t.xmin.val() < t.xmax.val()
    &&& t.tier_type == TierType::IntervalTier ==> intervals_tile(t.intervals, t.xmin, t.xmax)
    &&& t.tier_type == TierType::PointTier ==> points_within(t.points, t.xmin, t.xmax)
}

/// A valid document: ordered bounds and every tier valid within them.
pub open spec fn doc_valid(d: DocV) -> bool {
    &&& d.xmin.val() < d.xmax.val()
    &&& forall|k: int| 0 <= k < d.tiers.len() ==> tier_valid(#[trigger] d.tiers[k], d)
}

fn check_tiling(v: &Vec<Interval>, lo: &Time, hi: &Time) -> (r: bool)
    ensures
        r == intervals_tile(intervals_view(v@), *lo, *hi),
{
    let n = v.len();
    if n == 0 {
        return true;
    }
    let ghost s = intervals_view(v@);
    if !v[0].xmin.same(lo) {
        return false;
    }
    let mut i: usize = 0;
    while i < n
        invariant
            n == v.len(),
            s == intervals_view(v@),
            n > 0,
            i <= n,
            s[0].xmin.val() == lo.val(),
            forall|j: int| 0 <= j < i ==> (#[trigger] s[j]).xmin.val() < s[j].xmax.val(),
            forall|j: int| 0 <= j < i && j < n - 1 ==> (#[trigger] s[j]).xmax.val() == s[j + 1].xmin.val(),
        decreases n - i,
    {
        let iv = &v[i];
        assert(s[i as int] == iv@);
        if iv.xmax.le(&iv.xmin) {
            return false;
        }
        if i + 1 < n && !iv.xmax.same(&v[i + 1].xmin) {
            assert(s[i + 1] == v@[i + 1]@);
            return false;
        }
        i = i + 1;
    }
    v[n - 1].xmax.same(hi)
}

fn check_points(v: &Vec<Point>, lo: &Time, hi: &Time) -> (r: bool)
    ensures
        r == points_within(points_view(v@), *lo, *hi),
{
    let ghost s = points_view(v@);
    let mut i: usize = 0;
    while i < v.len()
        invariant
            s == points_view(v@),
            i <= v.len(),
            forall|j: int| 0 <= j < i ==> lo.val() <= (#[trigger] s[j]).time.val() && s[j].time.val() <= hi.val(),
        decreases v.len() - i,
    {
        let p = &v[i];
        assert(s[i as int] == p@);
        if p.time.lt(lo) || hi.lt(&p.time) {
            return false;
        }
        i = i + 1;
    }
    true
}

fn check_tier(t: &Tier, d: &TextGrid) -> (r: bool)
    ensures
        r == tier_valid(t@, d@),
{
    if t.xmin.lt(&d.xmin) || d.xmax.lt(&t.xmax) || t.xmax.le(&t.xmin) {
        return false;
    }
    match t.tier_type {
        TierType::IntervalTier => check_tiling(&t.intervals, &t.xmin, &t.xmax),
        TierType::PointTier => check_points(&t.points, &t.xmin, &t.xmax),
    }
}

/// Checks a document against its time-consistency rules.
pub fn validate_textgrid(textgrid: &TextGrid) -> (r: Result<(), TextGridError>)
    ensures
        r is Ok <==> doc_valid(textgrid@),
        r is Err ==> r matches Err(TextGridError::ValidationFailure(_)),
{
    if textgrid.xmax.le(&textgrid.xmin) {
        return Err(TextGridError::ValidationFailure(err_msg("document xmin must be less than xmax")));
    }
    let ghost d = textgrid@;
    let mut k: usize = 0;
    while k < textgrid.tiers.len()
        invariant
            d == textgrid@,
            k <= textgrid.tiers.len(),
            forall|j: int| 0 <= j < k ==> tier_valid(#[trigger] d.tiers[j], d),
        decreases textgrid.tiers.len() - k,
    {
        if !check_tier(&textgrid.tiers[k], textgrid) {
            assert(d.tiers[k as int] == textgrid.tiers@[k as int]@);
            return Err(TextGridError::ValidationFailure(err_msg("tier breaks the time-consistency rules")));
        }
        k = k + 1;
    }
    Ok(())
}

} // verus!
