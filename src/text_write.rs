//! Writing the long and the short text formats.
use vstd::prelude::*;

use crate::grid::{DocV, TextGrid};
use crate::model::{IntervalV, PointV, TextGridError, TierType, TierV, intervals_view, points_view};
use crate::time::{Time, digits_of, push_digits, time_text};
use crate::text_round_trip::{
    doc_texts_fit, doc_times_exact, lemma_plain, lemma_text_round_trip, tier_times_exact, time_ok,
};
use crate::text_read::text_doc;
use crate::validate::{doc_valid, validate_textgrid};
use crate::words::{
    file_type, file_type_bytes, object_class, object_class_bytes, xmin_eq, xmin_eq_bytes, xmax_eq,
    xmax_eq_bytes, tiers_exist, tiers_exist_bytes, size_eq, size_eq_bytes, item_list,
    item_list_bytes, item_open, item_open_bytes, close_colon, close_colon_bytes, class_eq,
    class_eq_bytes, name_eq, name_eq_bytes, intervals_size_eq, intervals_size_eq_bytes,
    points_size_eq, points_size_eq_bytes, intervals_open, intervals_open_bytes, points_open,
    points_open_bytes, text_eq, text_eq_bytes, time_eq, time_eq_bytes, mark_eq, mark_eq_bytes,
    interval_tier, interval_tier_bytes, text_tier, text_tier_bytes,
};

verus! {

pub open spec fn line(x: Seq<u8>) -> Seq<u8> {
    x.push(10u8)
}

pub open spec fn quoted(q: Seq<u8>) -> Seq<u8> {
    seq![34u8] + q + seq![34u8]
}

pub open spec fn spaces(n: nat) -> Seq<u8> {
    Seq::new(n, |i: int| 32u8)
}

pub open spec fn utf8(s: Seq<char>) -> Seq<u8> {
    vstd::utf8::encode_utf8(s)
}

/// One field line: indented and labelled in the long format, bare in the
/// short one.
pub open spec fn field(long: bool, indent: nat, label: Seq<u8>, value: Seq<u8>) -> Seq<u8> {
    if long {
        line(spaces(indent) + label + value)
    } else {
        line(value)
    }
}

/// The numbered heading line of an item, in the long format only.
pub open spec fn heading(long: bool, opener: Seq<u8>, j: nat) -> Seq<u8> {
    if long {
        line(opener + digits_of(j) + close_colon())
    } else {
        Seq::empty()
    }
}

pub open spec fn class_word(kind: TierType) -> Seq<u8> {
    if kind == TierType::IntervalTier {
        interval_tier()
    } else {
        text_tier()
    }
}

pub open spec fn interval_text(iv: IntervalV, j: nat, long: bool) -> Seq<u8> {
    heading(long, intervals_open(), j) + field(long, 12, xmin_eq(), time_text(iv.xmin)) + field(
        long,
        12,
        xmax_eq(),
        time_text(iv.xmax),
    ) + field(long, 12, text_eq(), quoted(utf8(iv.text)))
}

pub open spec fn point_text(p: PointV, j: nat, long: bool) -> Seq<u8> {
    heading(long, points_open(), j) + field(long, 12, time_eq(), time_text(p.time)) + field(
        long,
        12,
        mark_eq(),
        quoted(utf8(p.mark)),
    )
}

pub open spec fn intervals_text(s: Seq<IntervalV>, long: bool) -> Seq<u8>
    decreases s.len(),
{
    if s.len() == 0 {
        Seq::empty()
    } else {
        intervals_text(s.drop_last(), long) + interval_text(s.last(), s.len(), long)
    }
}

pub open spec fn points_text(s: Seq<PointV>, long: bool) -> Seq<u8>
    decreases s.len(),
{
    if s.len() == 0 {
        Seq::empty()
    } else {
        points_text(s.drop_last(), long) + point_text(s.last(), s.len(), long)
    }
}

#[verifier::opaque]
pub open spec fn tier_text(t: TierV, idx: nat, long: bool) -> Seq<u8> {
    heading(long, item_open(), idx) + field(long, 8, class_eq(), quoted(class_word(t.tier_type))) + field(
        long,
        8,
        name_eq(),
        quoted(utf8(t.name)),
    ) + field(long, 8, xmin_eq(), time_text(t.xmin)) + field(long, 8, xmax_eq(), time_text(t.xmax)) + if t.tier_type
        == TierType::IntervalTier {
        field(long, 8, intervals_size_eq(), digits_of(t.intervals.len())) + intervals_text(t.intervals, long)
    } else {
        field(long, 8, points_size_eq(), digits_of(t.points.len())) + points_text(t.points, long)
    }
}

pub open spec fn tiers_text(s: Seq<TierV>, long: bool) -> Seq<u8>
    decreases s.len(),
{
    if s.len() == 0 {
        Seq::empty()
    } else {
        tiers_text(s.drop_last(), long) + tier_text(s.last(), s.len(), long)
    }
}

/// The text file of a document, in the long or the short format.
pub open spec fn doc_text(d: DocV, long: bool) -> Seq<u8> {
    line(file_type()) + line(object_class()) + field(long, 0, xmin_eq(), time_text(d.xmin)) + field(
        long,
        0,
        xmax_eq(),
        time_text(d.xmax),
    ) + if long {
        line(tiers_exist()) + line(size_eq() + digits_of(d.tiers.len())) + line(item_list())
    } else {
        line(digits_of(d.tiers.len()))
    } + tiers_text(d.tiers, long)
}

fn push_all(out: &mut Vec<u8>, src: &Vec<u8>)
    ensures
        final(out)@ == old(out)@ + src@,
{
    let mut i: usize = 0;
    while i < src.len()
        invariant
            i <= src.len(),
            out@ == old(out)@ + src@.subrange(0, i as int),
        decreases src.len() - i,
    {
        out.push(src[i]);
        i = i + 1;
        assert(out@ =~= old(out)@ + src@.subrange(0, i as int));
    }
    assert(src@.subrange(0, src.len() as int) =~= src@);
}

fn push_quoted(out: &mut Vec<u8>, s: &String)
    ensures
        final(out)@ == old(out)@ + quoted(utf8(s@)),
{
    let b = s.as_str().as_bytes();
    out.push(34u8);
    let ghost o1 = out@;
    let mut i: usize = 0;
    while i < b.len()
        invariant
            i <= b.len(),
            b@ == utf8(s@),
            out@ == o1 + b@.subrange(0, i as int),
        decreases b.len() - i,
    {
        out.push(b[i]);
        i = i + 1;
        assert(out@ =~= o1 + b@.subrange(0, i as int));
    }
    out.push(34u8);
    assert(b@.subrange(0, b.len() as int) =~= b@);
    assert(out@ =~= old(out)@ + quoted(utf8(s@)));
}

/// Starts a field line: indentation and label in the long format.
fn field_start(out: &mut Vec<u8>, long: bool, indent: usize, label: &Vec<u8>)
    ensures
        final(out)@ == old(out)@ + (if long { spaces(indent as nat) + label@ } else { Seq::empty() }),
{
    if long {
        let mut i: usize = 0;
        while i < indent
            invariant
                i <= indent,
                out@ == old(out)@ + spaces(i as nat),
            decreases indent - i,
        {
            out.push(32u8);
            i = i + 1;
            assert(out@ =~= old(out)@ + spaces(i as nat));
        }
        push_all(out, label);
        assert(out@ =~= old(out)@ + (spaces(indent as nat) + label@));
    } else {
        assert(out@ =~= old(out)@ + Seq::<u8>::empty());
    }
}

fn time_field_line(out: &mut Vec<u8>, long: bool, indent: usize, label: &Vec<u8>, t: &Time)
    ensures
        final(out)@ == old(out)@ + field(long, indent as nat, label@, time_text(*t)),
        time_ok(*t),
{
    field_start(out, long, indent, label);
    t.write_text(out);
    out.push(10u8);
    assert(out@ =~= old(out)@ + field(long, indent as nat, label@, time_text(*t)));
}

fn text_field_line(out: &mut Vec<u8>, long: bool, indent: usize, label: &Vec<u8>, s: &String)
    ensures
        final(out)@ == old(out)@ + field(long, indent as nat, label@, quoted(utf8(s@))),
{
    field_start(out, long, indent, label);
    push_quoted(out, s);
    out.push(10u8);
    assert(out@ =~= old(out)@ + field(long, indent as nat, label@, quoted(utf8(s@))));
}

fn count_field_line(out: &mut Vec<u8>, long: bool, indent: usize, label: &Vec<u8>, n: usize)
    ensures
        final(out)@ == old(out)@ + field(long, indent as nat, label@, digits_of(n as nat)),
{
    field_start(out, long, indent, label);
    push_digits(n as u64, out);
    out.push(10u8);
    assert(out@ =~= old(out)@ + field(long, indent as nat, label@, digits_of(n as nat)));
}

fn heading_line(out: &mut Vec<u8>, long: bool, opener: &Vec<u8>, j: usize)
    ensures
        final(out)@ == old(out)@ + heading(long, opener@, j as nat),
{
    if long {
        push_all(out, opener);
        push_digits(j as u64, out);
        push_all(out, &close_colon_bytes());
        out.push(10u8);
        assert(out@ =~= old(out)@ + heading(long, opener@, j as nat));
    } else {
        assert(out@ =~= old(out)@ + heading(long, opener@, j as nat));
    }
}

fn write_intervals(out: &mut Vec<u8>, v: &Vec<crate::model::Interval>, long: bool)
    ensures
        final(out)@ == old(out)@ + intervals_text(intervals_view(v@), long),
        forall|j: int|
            0 <= j < v@.len() ==> time_ok((#[trigger] intervals_view(v@)[j]).xmin) && time_ok(
                intervals_view(v@)[j].xmax,
            ),
{
    let ghost sv = intervals_view(v@);
    let mut i: usize = 0;
    assert(sv.subrange(0, 0) =~= Seq::<IntervalV>::empty());
    assert(out@ =~= old(out)@ + intervals_text(sv.subrange(0, 0), long));
    while i < v.len()
        invariant
            i <= v.len(),
            sv == intervals_view(v@),
            out@ == old(out)@ + intervals_text(sv.subrange(0, i as int), long),
            forall|j: int| 0 <= j < i ==> time_ok((#[trigger] sv[j]).xmin) && time_ok(sv[j].xmax),
        decreases v.len() - i,
    {
        let ghost o0 = out@;
        let iv = &v[i];
        heading_line(out, long, &intervals_open_bytes(), i + 1);
        time_field_line(out, long, 12, &xmin_eq_bytes(), &iv.xmin);
        time_field_line(out, long, 12, &xmax_eq_bytes(), &iv.xmax);
        text_field_line(out, long, 12, &text_eq_bytes(), &iv.text);
        proof {
            let sub = sv.subrange(0, i + 1);
            assert(sub.drop_last() =~= sv.subrange(0, i as int));
            assert(sub.last() == iv@);
            assert(out@ =~= o0 + interval_text(iv@, (i + 1) as nat, long));
        }
        i = i + 1;
    }
    assert(sv.subrange(0, i as int) =~= sv);
}

fn write_points(out: &mut Vec<u8>, v: &Vec<crate::model::Point>, long: bool)
    ensures
        final(out)@ == old(out)@ + points_text(points_view(v@), long),
        forall|j: int| 0 <= j < v@.len() ==> time_ok((#[trigger] points_view(v@)[j]).time),
{
    let ghost sv = points_view(v@);
    let mut i: usize = 0;
    assert(sv.subrange(0, 0) =~= Seq::<PointV>::empty());
    assert(out@ =~= old(out)@ + points_text(sv.subrange(0, 0), long));
    while i < v.len()
        invariant
            i <= v.len(),
            sv == points_view(v@),
            out@ == old(out)@ + points_text(sv.subrange(0, i as int), long),
            forall|j: int| 0 <= j < i ==> time_ok((#[trigger] sv[j]).time),
        decreases v.len() - i,
    {
        let ghost o0 = out@;
        let pt = &v[i];
        heading_line(out, long, &points_open_bytes(), i + 1);
        time_field_line(out, long, 12, &time_eq_bytes(), &pt.time);
        text_field_line(out, long, 12, &mark_eq_bytes(), &pt.mark);
        proof {
            let sub = sv.subrange(0, i + 1);
            assert(sub.drop_last() =~= sv.subrange(0, i as int));
            assert(sub.last() == pt@);
            assert(out@ =~= o0 + point_text(pt@, (i + 1) as nat, long));
        }
        i = i + 1;
    }
    assert(sv.subrange(0, i as int) =~= sv);
}

fn class_field_line(out: &mut Vec<u8>, long: bool, kind: TierType)
    ensures
        final(out)@ == old(out)@ + field(long, 8, class_eq(), quoted(class_word(kind))),
{
    let word = match kind {
        TierType::IntervalTier => interval_tier_bytes(),
        TierType::PointTier => text_tier_bytes(),
    };
    field_start(out, long, 8, &class_eq_bytes());
    out.push(34u8);
    push_all(out, &word);
    out.push(34u8);
    out.push(10u8);
    assert(out@ =~= old(out)@ + field(long, 8, class_eq(), quoted(class_word(kind))));
}

pub open spec fn tier_contents(t: TierV, long: bool) -> Seq<u8> {
    if t.tier_type == TierType::IntervalTier {
        field(long, 8, intervals_size_eq(), digits_of(t.intervals.len())) + intervals_text(t.intervals, long)
    } else {
        field(long, 8, points_size_eq(), digits_of(t.points.len())) + points_text(t.points, long)
    }
}

fn write_contents(out: &mut Vec<u8>, t: &crate::model::Tier, long: bool)
    ensures
        final(out)@ == old(out)@ + tier_contents(t@, long),
        t.tier_type == TierType::IntervalTier ==> forall|i: int|
            0 <= i < t@.intervals.len() ==> time_ok((#[trigger] t@.intervals[i]).xmin) && time_ok(
                t@.intervals[i].xmax,
            ),
        t.tier_type == TierType::PointTier ==> forall|i: int|
            0 <= i < t@.points.len() ==> time_ok((#[trigger] t@.points[i]).time),
{
    match t.tier_type {
        TierType::IntervalTier => {
            count_field_line(out, long, 8, &intervals_size_eq_bytes(), t.intervals.len());
            write_intervals(out, &t.intervals, long);
        },
        TierType::PointTier => {
            count_field_line(out, long, 8, &points_size_eq_bytes(), t.points.len());
            write_points(out, &t.points, long);
        },
    }
    assert(out@ =~= old(out)@ + tier_contents(t@, long));
}

fn write_tier(out: &mut Vec<u8>, t: &crate::model::Tier, idx: usize, long: bool)
    ensures
        final(out)@ == old(out)@ + tier_text(t@, idx as nat, long),
        tier_times_exact(t@),
{
    reveal(tier_text);
    let ghost o0 = out@;
    heading_line(out, long, &item_open_bytes(), idx);
    let ghost a = out@;
    class_field_line(out, long, t.tier_type);
    let ghost b = out@;
    text_field_line(out, long, 8, &name_eq_bytes(), &t.name);
    let ghost c = out@;
    time_field_line(out, long, 8, &xmin_eq_bytes(), &t.xmin);
    let ghost d = out@;
    time_field_line(out, long, 8, &xmax_eq_bytes(), &t.xmax);
    let ghost e = out@;
    write_contents(out, t, long);
    proof {
        let h = heading(long, item_open(), idx as nat);
        let f1 = field(long, 8, class_eq(), quoted(class_word(t.tier_type)));
        let f2 = field(long, 8, name_eq(), quoted(utf8(t.name@)));
        let f3 = field(long, 8, xmin_eq(), time_text(t.xmin));
        let f4 = field(long, 8, xmax_eq(), time_text(t.xmax));
        let f5 = tier_contents(t@, long);
        assert(tier_text(t@, idx as nat, long) == h + f1 + f2 + f3 + f4 + f5);
        assert(out@ =~= o0 + (h + f1 + f2 + f3 + f4 + f5));
    }
}

fn write_format(textgrid: &TextGrid, long: bool) -> (r: Vec<u8>)
    ensures
        r@ == doc_text(textgrid@, long),
        doc_times_exact(textgrid@),
{
    let mut out: Vec<u8> = Vec::new();
    let file_type_line = file_type_bytes();
    push_all(&mut out, &file_type_line);
    out.push(10u8);
    push_all(&mut out, &object_class_bytes());
    out.push(10u8);
    time_field_line(&mut out, long, 0, &xmin_eq_bytes(), &textgrid.xmin);
    time_field_line(&mut out, long, 0, &xmax_eq_bytes(), &textgrid.xmax);
    let ghost o1 = out@;
    if long {
        push_all(&mut out, &tiers_exist_bytes());
        out.push(10u8);
        push_all(&mut out, &size_eq_bytes());
        push_digits(textgrid.tiers.len() as u64, &mut out);
        out.push(10u8);
        push_all(&mut out, &item_list_bytes());
        out.push(10u8);
    } else {
        push_digits(textgrid.tiers.len() as u64, &mut out);
        out.push(10u8);
    }
    let ghost o2 = out@;
    let ghost ts = textgrid@.tiers;
    let mut k: usize = 0;
    assert(ts.subrange(0, 0) =~= Seq::<TierV>::empty());
    assert(out@ =~= o2 + tiers_text(ts.subrange(0, 0), long));
    while k < textgrid.tiers.len()
        invariant
            k <= textgrid.tiers.len(),
            ts == textgrid@.tiers,
            out@ == o2 + tiers_text(ts.subrange(0, k as int), long),
            time_ok(textgrid.xmin),
            time_ok(textgrid.xmax),
            forall|j: int| 0 <= j < k ==> tier_times_exact(#[trigger] ts[j]),
        decreases textgrid.tiers.len() - k,
    {
        let ghost oo = out@;
        write_tier(&mut out, &textgrid.tiers[k], k + 1, long);
        assert(ts[k as int] == textgrid.tiers@[k as int]@);
        proof {
            let sub = ts.subrange(0, k + 1);
            assert(sub.drop_last() =~= ts.subrange(0, k as int));
            assert(sub.last() == textgrid.tiers@[k as int]@);
        }
        k = k + 1;
    }
    assert(ts.subrange(0, k as int) =~= ts);
    assert(out@ =~= doc_text(textgrid@, long));
    out
}

/// The document in the long text format. Reading the result back gives
/// the document, when its texts hold no line break (see `doc_texts_fit`).
pub fn write_long_format(textgrid: &TextGrid) -> (r: Vec<u8>)
    ensures
        r@ == doc_text(textgrid@, true),
        doc_texts_fit(textgrid@) ==> text_doc(r@) == Some(textgrid@),
{
    let r = write_format(textgrid, true);
    proof {
        if doc_texts_fit(textgrid@) {
            lemma_plain(textgrid@);
            lemma_text_round_trip(textgrid@, true);
        }
    }
    r
}

/// The document in the short text format. Reading the result back gives
/// the document, when its texts hold no line break (see `doc_texts_fit`).
pub fn write_short_format(textgrid: &TextGrid) -> (r: Vec<u8>)
    ensures
        r@ == doc_text(textgrid@, false),
        doc_texts_fit(textgrid@) ==> text_doc(r@) == Some(textgrid@),
{
    let r = write_format(textgrid, false);
    proof {
        if doc_texts_fit(textgrid@) {
            lemma_plain(textgrid@);
            lemma_text_round_trip(textgrid@, false);
        }
    }
    r
}

/// Validates the document, then writes it in the short or the long format.
pub fn write_textgrid(textgrid: &TextGrid, short_format: bool) -> (r: Result<Vec<u8>, TextGridError>)
    ensures
        r is Ok <==> doc_valid(textgrid@),
        r is Err ==> r matches Err(TextGridError::ValidationFailure(_)),
        r matches Ok(b) ==> b@ == doc_text(textgrid@, !short_format),
        r matches Ok(b) ==> (doc_texts_fit(textgrid@) ==> text_doc(b@) == Some(textgrid@)),
{
    validate_textgrid(textgrid)?;
    if short_format {
        Ok(write_short_format(textgrid))
    } else {
        Ok(write_long_format(textgrid))
    }
}

} // verus!
