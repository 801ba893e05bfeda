//! Reading the long and the short text formats.
//!
//! The formats are described by spec functions over the input bytes and a
//! position; each returns the value read and the position after it. The
//! reader is proved to follow them exactly.
use vstd::prelude::*;

use crate::grid::{DocV, TextGrid};
use crate::lines::{
    after_prefix, count_field, line_at, line_bounds, malformed_at, quoted_field, read_count, read_line, read_quoted, read_text,
    read_time, starts_with, text_field, time_field, trim,
};
use crate::model::{
    Interval, IntervalV, Point, PointV, TextGridError, Tier, TierType, TierV, err_msg,
    intervals_view, points_view,
};
use crate::time::Time;
use crate::words::{
    file_type, file_type_bytes, object_class, object_class_bytes, xmin_eq, xmin_eq_bytes, xmax_eq,
    xmax_eq_bytes, tiers_exist, tiers_exist_bytes, size_eq, size_eq_bytes, class_eq, class_eq_bytes,
    name_eq, name_eq_bytes, intervals_size_eq, intervals_size_eq_bytes, points_size_eq,
    points_size_eq_bytes, text_eq, text_eq_bytes, time_eq, time_eq_bytes, mark_eq, mark_eq_bytes,
    interval_tier, interval_tier_bytes, text_tier, text_tier_bytes,
};

verus! {

/// The prefix of a field: the label in the long format, nothing in the short one.
pub open spec fn px(long: bool, p: Seq<u8>) -> Seq<u8> {
    if long {
        p
    } else {
        Seq::empty()
    }
}

pub open spec fn skip_line(b: Seq<u8>, pos: int) -> Option<int> {
    match line_at(b, pos) {
        Some((_, n)) => Some(n),
        None => None,
    }
}

/// The long format puts a heading line before each item; the short one does not.
pub open spec fn skip_heading(b: Seq<u8>, pos: int, long: bool) -> Option<int> {
    if long {
        skip_line(b, pos)
    } else {
        Some(pos)
    }
}

pub open spec fn time_at(b: Seq<u8>, pos: int, p: Seq<u8>) -> Option<(Time, int)> {
    match line_at(b, pos) {
        Some((l, n)) => match time_field(l, p) {
            Some(t) => Some((t, n)),
            None => None,
        },
        None => None,
    }
}

pub open spec fn text_at(b: Seq<u8>, pos: int, p: Seq<u8>) -> Option<(Seq<char>, int)> {
    match line_at(b, pos) {
        Some((l, n)) => match text_field(l, p) {
            Some(t) => Some((t, n)),
            None => None,
        },
        None => None,
    }
}

pub open spec fn count_at(b: Seq<u8>, pos: int, p: Seq<u8>) -> Option<(nat, int)> {
    match line_at(b, pos) {
        Some((l, n)) => match count_field(l, p) {
            Some(c) => Some((c, n)),
            None => None,
        },
        None => None,
    }
}

pub open spec fn class_at(b: Seq<u8>, pos: int, p: Seq<u8>) -> Option<(TierType, int)> {
    match line_at(b, pos) {
        Some((l, n)) => match quoted_field(l, p) {
            Some(q) => if q == interval_tier() {
                Some((TierType::IntervalTier, n))
            } else if q == text_tier() {
                Some((TierType::PointTier, n))
            } else {
                None
            },
            None => None,
        },
        None => None,
    }
}

pub open spec fn interval_at(b: Seq<u8>, pos: int, long: bool) -> Option<(IntervalV, int)> {
    match skip_heading(b, pos, long) {
        Some(p1) => match time_at(b, p1, px(long, xmin_eq())) {
            Some((x0, p2)) => match time_at(b, p2, px(long, xmax_eq())) {
                Some((x1, p3)) => match text_at(b, p3, px(long, text_eq())) {
                    Some((t, p4)) => Some((IntervalV { xmin: x0, xmax: x1, text: t }, p4)),
                    None => None,
                },
                None => None,
            },
            None => None,
        },
        None => None,
    }
}

pub open spec fn point_at(b: Seq<u8>, pos: int, long: bool) -> Option<(PointV, int)> {
    match skip_heading(b, pos, long) {
        Some(p1) => match time_at(b, p1, px(long, time_eq())) {
            Some((t, p2)) => match text_at(b, p2, px(long, mark_eq())) {
                Some((m, p3)) => Some((PointV { time: t, mark: m }, p3)),
                None => None,
            },
            None => None,
        },
        None => None,
    }
}

pub open spec fn intervals_at(b: Seq<u8>, pos: int, long: bool, n: nat) -> Option<(Seq<IntervalV>, int)>
    decreases n,
{
    if n == 0 {
        Some((Seq::empty(), pos))
    } else {
        match intervals_at(b, pos, long, (n - 1) as nat) {
            Some((s, p)) => match interval_at(b, p, long) {
                Some((iv, q)) => Some((s.push(iv), q)),
                None => None,
            },
            None => None,
        }
    }
}

pub open spec fn points_at(b: Seq<u8>, pos: int, long: bool, n: nat) -> Option<(Seq<PointV>, int)>
    decreases n,
{
    if n == 0 {
        Some((Seq::empty(), pos))
    } else {
        match points_at(b, pos, long, (n - 1) as nat) {
            Some((s, p)) => match point_at(b, p, long) {
                Some((pt, q)) => Some((s.push(pt), q)),
                None => None,
            },
            None => None,
        }
    }
}

pub open spec fn size_label(kind: TierType) -> Seq<u8> {
    if kind == TierType::IntervalTier {
        intervals_size_eq()
    } else {
        points_size_eq()
    }
}

#[verifier::opaque]
pub open spec fn tier_at(b: Seq<u8>, pos: int, long: bool) -> Option<(TierV, int)> {
    match skip_heading(b, pos, long) {
        Some(p0) => match class_at(b, p0, px(long, class_eq())) {
            Some((kind, p1)) => match text_at(b, p1, px(long, name_eq())) {
                Some((name, p2)) => match time_at(b, p2, px(long, xmin_eq())) {
                    Some((x0, p3)) => match time_at(b, p3, px(long, xmax_eq())) {
                        Some((x1, p4)) => match count_at(b, p4, px(long, size_label(kind))) {
                            Some((n, p5)) => if kind == TierType::IntervalTier {
                                match intervals_at(b, p5, long, n) {
                                    Some((ivs, p6)) => Some(
                                        (
                                            TierV {
                                                name,
                                                tier_type: kind,
                                                xmin: x0,
                                                xmax: x1,
                                                intervals: ivs,
                                                points: Seq::empty(),
                                            },
                                            p6,
                                        ),
                                    ),
                                    None => None,
                                }
                            } else {
                                match points_at(b, p5, long, n) {
                                    Some((pts, p6)) => Some(
                                        (
                                            TierV {
                                                name,
                                                tier_type: kind,
                                                xmin: x0,
                                                xmax: x1,
                                                intervals: Seq::empty(),
                                                points: pts,
                                            },
                                            p6,
                                        ),
                                    ),
                                    None => None,
                                }
                            },
                            None => None,
                        },
                        None => None,
                    },
                    None => None,
                },
                None => None,
            },
            None => None,
        },
        None => None,
    }
}

pub open spec fn tiers_at(b: Seq<u8>, pos: int, long: bool, n: nat) -> Option<(Seq<TierV>, int)>
    decreases n,
{
    if n == 0 {
        Some((Seq::empty(), pos))
    } else {
        match tiers_at(b, pos, long, (n - 1) as nat) {
            Some((s, p)) => match tier_at(b, p, long) {
                Some((t, q)) => Some((s.push(t), q)),
                None => None,
            },
            None => None,
        }
    }
}

/// The line at `pos`, trimmed, is exactly `w`.
pub open spec fn line_is(b: Seq<u8>, pos: int, w: Seq<u8>) -> Option<int> {
    match line_at(b, pos) {
        Some((l, n)) => if trim(l) == w {
            Some(n)
        } else {
            None
        },
        None => None,
    }
}

/// After the two header lines, the long format is recognised by its
/// `xmin = ` label.
pub open spec fn is_long(b: Seq<u8>, pos: int) -> bool {
    line_at(b, pos) matches Some((l, _)) && after_prefix(trim(l), xmin_eq()) is Some
}

/// The body that follows the header lines, in the given format.
#[verifier::opaque]
pub open spec fn body_at(b: Seq<u8>, pos: int, long: bool) -> Option<DocV> {
    match time_at(b, pos, px(long, xmin_eq())) {
        Some((x0, p1)) => match time_at(b, p1, px(long, xmax_eq())) {
            Some((x1, p2)) => {
                let counted = if long {
                    match line_is(b, p2, tiers_exist()) {
                        Some(p3) => match count_at(b, p3, size_eq()) {
                            Some((n, p4)) => match skip_line(b, p4) {
                                Some(p5) => Some((n, p5)),
                                None => None,
                            },
                            None => None,
                        },
                        None => None,
                    }
                } else {
                    count_at(b, p2, Seq::empty())
                };
                match counted {
                    Some((n, p)) => match tiers_at(b, p, long, n) {
                        Some((ts, _)) => Some(DocV { xmin: x0, xmax: x1, tiers: ts }),
                        None => None,
                    },
                    None => None,
                }
            },
            None => None,
        },
        None => None,
    }
}

/// The line at `pos` is exactly `w`, or `w` followed by a carriage return.
pub open spec fn header_is(b: Seq<u8>, pos: int, w: Seq<u8>) -> Option<int> {
    match line_at(b, pos) {
        Some((l, n)) => if l == w || l == w.push(13u8) {
            Some(n)
        } else {
            None
        },
        None => None,
    }
}

/// The document a text file holds, in either format. The two header lines
/// must be exactly `File type = "ooTextFile"` and `Object class =
/// "TextGrid"` (a line may end in a carriage return); the fields after them
/// are read with their line's blanks trimmed.
pub open spec fn text_doc(b: Seq<u8>) -> Option<DocV> {
    match header_is(b, 0, file_type()) {
        Some(p1) => match header_is(b, p1, object_class()) {
            Some(p2) => body_at(b, p2, is_long(b, p2)),
            None => None,
        },
        None => None,
    }
}

pub proof fn lemma_intervals_stop(b: Seq<u8>, pos: int, long: bool, i: nat, n: nat)
    requires
        i <= n,
        intervals_at(b, pos, long, i) is None,
    ensures
        intervals_at(b, pos, long, n) is None,
    decreases n - i,
{
    if i < n {
        lemma_intervals_stop(b, pos, long, i, (n - 1) as nat);
    }
}

pub proof fn lemma_points_stop(b: Seq<u8>, pos: int, long: bool, i: nat, n: nat)
    requires
        i <= n,
        points_at(b, pos, long, i) is None,
    ensures
        points_at(b, pos, long, n) is None,
    decreases n - i,
{
    if i < n {
        lemma_points_stop(b, pos, long, i, (n - 1) as nat);
    }
}

pub proof fn lemma_tiers_stop(b: Seq<u8>, pos: int, long: bool, i: nat, n: nat)
    requires
        i <= n,
        tiers_at(b, pos, long, i) is None,
    ensures
        tiers_at(b, pos, long, n) is None,
    decreases n - i,
{
    if i < n {
        lemma_tiers_stop(b, pos, long, i, (n - 1) as nat);
    }
}

fn label(long: bool, w: Vec<u8>) -> (r: Vec<u8>)
    ensures
        r@ == px(long, w@),
{
    if long {
        w
    } else {
        Vec::new()
    }
}

fn same_bytes(a: &Vec<u8>, b: &Vec<u8>) -> (r: bool)
    ensures
        r == (a@ == b@),
{
    if a.len() != b.len() {
        return false;
    }
    let mut i: usize = 0;
    while i < a.len()
        invariant
            a.len() == b.len(),
            i <= a.len(),
            forall|j: int| 0 <= j < i ==> a@[j] == b@[j],
        decreases a.len() - i,
    {
        if a[i] != b[i] {
            return false;
        }
        i = i + 1;
    }
    assert(a@ =~= b@);
    true
}

fn malformed(what: &str) -> (r: TextGridError)
    ensures
        r matches TextGridError::MalformedInput(_),
{
    TextGridError::MalformedInput(err_msg(what))
}

fn read_skip(b: &[u8], pos: usize, long: bool) -> (r: Result<usize, TextGridError>)
    ensures
        r is Ok <==> skip_heading(b@, pos as int, long) is Some,
        r matches Ok(n) ==> skip_heading(b@, pos as int, long) == Some(n as int),
        r is Err ==> r matches Err(TextGridError::MalformedInput(_)),
{
    if !long {
        return Ok(pos);
    }
    match read_line(b, pos) {
        Some((_, _, nx)) => Ok(nx),
        None => Err(malformed("unexpected end of input")),
    }
}

fn read_class(b: &[u8], pos: usize, p: &Vec<u8>) -> (r: Result<(TierType, usize), TextGridError>)
    ensures
        r is Ok <==> class_at(b@, pos as int, p@) is Some,
        r matches Ok((k, n)) ==> class_at(b@, pos as int, p@) == Some((k, n as int)),
        r is Err ==> r matches Err(TextGridError::MalformedInput(_)),
{
    let (q, nx) = match read_quoted(b, pos, p) {
        Ok(x) => x,
        Err(e) => {
            return Err(e);
        },
    };
    if same_bytes(&q, &interval_tier_bytes()) {
        Ok((TierType::IntervalTier, nx))
    } else if same_bytes(&q, &text_tier_bytes()) {
        Ok((TierType::PointTier, nx))
    } else {
        Err(malformed("unknown tier class"))
    }
}

fn read_interval(b: &[u8], pos: usize, long: bool) -> (r: Result<(Interval, usize), TextGridError>)
    ensures
        r is Ok <==> interval_at(b@, pos as int, long) is Some,
        r matches Ok((iv, n)) ==> interval_at(b@, pos as int, long) == Some((iv@, n as int)),
        r is Err ==> r matches Err(TextGridError::MalformedInput(_)),
{
    let p1 = read_skip(b, pos, long)?;
    let (x0, p2) = read_time(b, p1, &label(long, xmin_eq_bytes()))?;
    let (x1, p3) = read_time(b, p2, &label(long, xmax_eq_bytes()))?;
    let (t, p4) = read_text(b, p3, &label(long, text_eq_bytes()))?;
    Ok((Interval { xmin: x0, xmax: x1, text: t }, p4))
}

fn read_point(b: &[u8], pos: usize, long: bool) -> (r: Result<(Point, usize), TextGridError>)
    ensures
        r is Ok <==> point_at(b@, pos as int, long) is Some,
        r matches Ok((pt, n)) ==> point_at(b@, pos as int, long) == Some((pt@, n as int)),
        r is Err ==> r matches Err(TextGridError::MalformedInput(_)),
{
    let p1 = read_skip(b, pos, long)?;
    let (t, p2) = read_time(b, p1, &label(long, time_eq_bytes()))?;
    let (m, p3) = read_text(b, p2, &label(long, mark_eq_bytes()))?;
    Ok((Point { time: t, mark: m }, p3))
}

fn read_intervals(b: &[u8], pos: usize, long: bool, n: u32) -> (r: Result<(Vec<Interval>, usize), TextGridError>)
    ensures
        r is Ok <==> intervals_at(b@, pos as int, long, n as nat) is Some,
        r matches Ok((v, q)) ==> intervals_at(b@, pos as int, long, n as nat) == Some((intervals_view(v@), q as int)),
        r is Err ==> r matches Err(TextGridError::MalformedInput(_)),
{
    let mut v: Vec<Interval> = Vec::new();
    let mut p = pos;
    let mut i: u32 = 0;
    assert(intervals_view(v@) =~= Seq::<IntervalV>::empty());
    while i < n
        invariant
            i <= n,
            intervals_at(b@, pos as int, long, i as nat) == Some((intervals_view(v@), p as int)),
        decreases n - i,
    {
        match read_interval(b, p, long) {
            Ok((iv, q)) => {
                let ghost v0 = intervals_view(v@);
                v.push(iv);
                assert(intervals_view(v@) =~= v0.push(iv@));
                p = q;
            },
            Err(e) => {
                proof {
                    lemma_intervals_stop(b@, pos as int, long, (i + 1) as nat, n as nat);
                }
                return Err(e);
            },
        }
        i = i + 1;
    }
    Ok((v, p))
}

fn read_points(b: &[u8], pos: usize, long: bool, n: u32) -> (r: Result<(Vec<Point>, usize), TextGridError>)
    ensures
        r is Ok <==> points_at(b@, pos as int, long, n as nat) is Some,
        r matches Ok((v, q)) ==> points_at(b@, pos as int, long, n as nat) == Some((points_view(v@), q as int)),
        r is Err ==> r matches Err(TextGridError::MalformedInput(_)),
{
    let mut v: Vec<Point> = Vec::new();
    let mut p = pos;
    let mut i: u32 = 0;
    assert(points_view(v@) =~= Seq::<PointV>::empty());
    while i < n
        invariant
            i <= n,
            points_at(b@, pos as int, long, i as nat) == Some((points_view(v@), p as int)),
        decreases n - i,
    {
        match read_point(b, p, long) {
            Ok((pt, q)) => {
                let ghost v0 = points_view(v@);
                v.push(pt);
                assert(points_view(v@) =~= v0.push(pt@));
                p = q;
            },
            Err(e) => {
                proof {
                    lemma_points_stop(b@, pos as int, long, (i + 1) as nat, n as nat);
                }
                return Err(e);
            },
        }
        i = i + 1;
    }
    Ok((v, p))
}

fn read_tier(b: &[u8], pos: usize, long: bool) -> (r: Result<(Tier, usize), TextGridError>)
    ensures
        r is Ok <==> tier_at(b@, pos as int, long) is Some,
        r matches Ok((t, n)) ==> tier_at(b@, pos as int, long) == Some((t@, n as int)),
        r is Err ==> r matches Err(TextGridError::MalformedInput(_)),
{
    reveal(tier_at);
    let p0 = read_skip(b, pos, long)?;
    let (kind, p1) = read_class(b, p0, &label(long, class_eq_bytes()))?;
    let (name, p2) = read_text(b, p1, &label(long, name_eq_bytes()))?;
    let (x0, p3) = read_time(b, p2, &label(long, xmin_eq_bytes()))?;
    let (x1, p4) = read_time(b, p3, &label(long, xmax_eq_bytes()))?;
    let size_word = match kind {
        TierType::IntervalTier => intervals_size_eq_bytes(),
        TierType::PointTier => points_size_eq_bytes(),
    };
    let (n, p5) = read_count(b, p4, &label(long, size_word))?;
    match kind {
        TierType::IntervalTier => {
            let (ivs, p6) = read_intervals(b, p5, long, n)?;
            let t = Tier { name, tier_type: kind, xmin: x0, xmax: x1, intervals: ivs, points: Vec::new() };
            assert(points_view(t.points@) =~= Seq::<PointV>::empty());
            Ok((t, p6))
        },
        TierType::PointTier => {
            let (pts, p6) = read_points(b, p5, long, n)?;
            let t = Tier { name, tier_type: kind, xmin: x0, xmax: x1, intervals: Vec::new(), points: pts };
            assert(intervals_view(t.intervals@) =~= Seq::<IntervalV>::empty());
            Ok((t, p6))
        },
    }
}

fn read_tiers(b: &[u8], pos: usize, long: bool, n: u32) -> (r: Result<(Vec<Tier>, usize), TextGridError>)
    ensures
        r is Ok <==> tiers_at(b@, pos as int, long, n as nat) is Some,
        r matches Ok((v, q)) ==> tiers_at(b@, pos as int, long, n as nat) == Some(
            (crate::grid::tiers_view(v@), q as int),
        ),
        r is Err ==> r matches Err(TextGridError::MalformedInput(_)),
{
    let mut v: Vec<Tier> = Vec::new();
    let mut p = pos;
    let mut i: u32 = 0;
    assert(crate::grid::tiers_view(v@) =~= Seq::<TierV>::empty());
    while i < n
        invariant
            i <= n,
            tiers_at(b@, pos as int, long, i as nat) == Some((crate::grid::tiers_view(v@), p as int)),
        decreases n - i,
    {
        match read_tier(b, p, long) {
            Ok((t, q)) => {
                let ghost v0 = crate::grid::tiers_view(v@);
                let ghost tv = t@;
                v.push(t);
                assert(crate::grid::tiers_view(v@) =~= v0.push(tv));
                p = q;
            },
            Err(e) => {
                proof {
                    lemma_tiers_stop(b@, pos as int, long, (i + 1) as nat, n as nat);
                }
                return Err(e);
            },
        }
        i = i + 1;
    }
    Ok((v, p))
}

fn read_exact_line(b: &[u8], pos: usize, w: &Vec<u8>) -> (r: Result<usize, TextGridError>)
    ensures
        r is Ok <==> line_is(b@, pos as int, w@) is Some,
        r matches Ok(n) ==> line_is(b@, pos as int, w@) == Some(n as int),
        r is Err ==> r matches Err(TextGridError::MalformedInput(_)),
{
    let (s, e, nx) = match read_line(b, pos) {
        Some(x) => x,
        None => {
            return Err(malformed("unexpected end of input"));
        },
    };
    let got = vstd::slice::slice_to_vec(vstd::slice::slice_subrange(b, s, e));
    if same_bytes(&got, w) {
        Ok(nx)
    } else {
        Err(malformed_at("unexpected line", w.as_slice(), got.as_slice()))
    }
}

fn read_header_line(b: &[u8], pos: usize, w: &Vec<u8>) -> (r: Result<usize, TextGridError>)
    ensures
        r is Ok <==> header_is(b@, pos as int, w@) is Some,
        r matches Ok(n) ==> header_is(b@, pos as int, w@) == Some(n as int),
        r is Err ==> r matches Err(TextGridError::MalformedInput(_)),
{
    let (e, nx) = match line_bounds(b, pos) {
        Some(x) => x,
        None => {
            return Err(malformed("unexpected end of input"));
        },
    };
    let got = vstd::slice::slice_to_vec(vstd::slice::slice_subrange(b, pos, e));
    if same_bytes(&got, w) {
        return Ok(nx);
    }
    let mut with_cr = w.clone();
    with_cr.push(13u8);
    assert(with_cr@ == w@.push(13u8));
    if same_bytes(&got, &with_cr) {
        Ok(nx)
    } else {
        Err(malformed_at("unexpected header line", w.as_slice(), got.as_slice()))
    }
}

/// Reads a document in the long or the short text format; the format is
/// told by the line after the header.
pub fn parse_textgrid(b: &[u8]) -> (r: Result<TextGrid, TextGridError>)
    ensures
        r is Ok <==> (text_doc(b@) matches Some(d) && d.xmin.val() < d.xmax.val()),
        r matches Ok(g) ==> Some(g@) == text_doc(b@) && g.wf() && g.history.undo_states().len() == 0
            && g.history.redo_states().len() == 0,
        text_doc(b@) is None ==> r matches Err(TextGridError::MalformedInput(_)),
        text_doc(b@) matches Some(d) && d.xmax.val() <= d.xmin.val() ==> (r matches Err(
            TextGridError::InvalidRange(_),
        )),
{
    reveal(body_at);
    let p1 = read_header_line(b, 0, &file_type_bytes())?;
    let p2 = read_header_line(b, p1, &object_class_bytes())?;
    let long = match read_line(b, p2) {
        Some((s, e, _)) => starts_with(b, s, e, &xmin_eq_bytes()),
        None => false,
    };
    let (x0, p3) = read_time(b, p2, &label(long, xmin_eq_bytes()))?;
    let (x1, p4) = read_time(b, p3, &label(long, xmax_eq_bytes()))?;
    let (n, p) = if long {
        let p5 = read_exact_line(b, p4, &tiers_exist_bytes())?;
        let (n, p6) = read_count(b, p5, &size_eq_bytes())?;
        let p7 = match read_line(b, p6) {
            Some((_, _, nx)) => nx,
            None => {
                return Err(malformed("unexpected end of input"));
            },
        };
        (n, p7)
    } else {
        read_count(b, p4, &Vec::new())?
    };
    let (tiers, _) = read_tiers(b, p, long, n)?;
    let g = TextGrid::new(x0, x1)?;
    Ok(g.with_tiers(tiers))
}

} // verus!
