//! Reading back what the text writer wrote gives the document back.
use vstd::prelude::*;

use crate::grid::DocV;
use crate::lines::{
    after_prefix, is_ws, ws_prefix, ws_suffix, line_at, line_end_at, trim, trim_start, unquote, lemma_line_end_unique,
};
use crate::model::{IntervalV, PointV, TierType, TierV};
use crate::text_read::{
    body_at, class_at, count_at, interval_at, intervals_at, is_long, line_is, point_at, points_at,
    px, size_label, skip_heading, text_at, text_doc, tier_at, tiers_at, time_at,
};
use crate::text_write::{
    class_word, doc_text, field, heading, interval_text, intervals_text, line, point_text,
    points_text, quoted, spaces, tier_text, tiers_text, utf8,
};
use crate::time::{
    Time, all_digits, digits_of, digits_val, is_digit, lemma_digits_of, lemma_time_text_shape,
    parse_time, time_text,
};
use crate::words::{
    file_type, object_class, xmin_eq, xmax_eq, tiers_exist, size_eq, item_list, item_open,
    close_colon, class_eq, name_eq, intervals_size_eq, points_size_eq, intervals_open, points_open,
    text_eq, time_eq, mark_eq, interval_tier, text_tier,
};

verus! {

/// `x` stands in `b` at `p`.
pub open spec fn has_at(b: Seq<u8>, p: int, x: Seq<u8>) -> bool {
    0 <= p && p + x.len() <= b.len() && b.subrange(p, p + x.len()) == x
}

pub proof fn lemma_has_at_split(b: Seq<u8>, p: int, x: Seq<u8>, y: Seq<u8>)
    requires
        has_at(b, p, x + y),
    ensures
        has_at(b, p, x),
        has_at(b, p + x.len(), y),
{
    let w = b.subrange(p, p + x.len() + y.len());
    assert(w == x + y);
    assert(b.subrange(p, p + x.len()) =~= w.subrange(0, x.len() as int));
    assert(w.subrange(0, x.len() as int) =~= x);
    assert(b.subrange(p + x.len(), p + x.len() + y.len()) =~= w.subrange(x.len() as int, (x.len() + y.len()) as int));
    assert(w.subrange(x.len() as int, (x.len() + y.len()) as int) =~= y);
}

pub open spec fn no_newline(x: Seq<u8>) -> bool {
    forall|i: int| 0 <= i < x.len() ==> x[i] != 10
}

/// Bytes that trimming leaves alone at both ends.
pub open spec fn firm(x: Seq<u8>) -> bool {
    x.len() > 0 && plain_byte(x[0]) && plain_byte(x.last())
}

/// An ASCII byte that is not white space.
pub open spec fn plain_byte(c: u8) -> bool {
    c < 128 && !is_ws(c)
}

pub proof fn lemma_line_at(b: Seq<u8>, p: int, x: Seq<u8>)
    requires
        no_newline(x),
        has_at(b, p, line(x)),
    ensures
        line_at(b, p) == Some((x, p + x.len() + 1)),
{
    assert(line(x) =~= x + seq![10u8]);
    lemma_has_at_split(b, p, x, seq![10u8]);
    assert(b[p + x.len()] == b.subrange(p + x.len(), p + x.len() + 1)[0]);
    assert forall|j: int| p <= j < p + x.len() implies b[j] != 10 by {
        assert(b[j] == b.subrange(p, p + x.len())[j - p]);
    }
    assert(line_end_at(b, p, p + x.len()));
    lemma_line_end_unique(b, p, p + x.len());
}

pub proof fn lemma_trim_start_spaces(k: nat, y: Seq<u8>)
    requires
        y.len() > 0,
        plain_byte(y[0]),
    ensures
        trim_start(spaces(k) + y) == y,
    decreases k,
{
    let x = spaces(k) + y;
    if k > 0 {
        assert(x[0] == 32u8);
        assert(ws_prefix(x) == 1);
        assert(x.subrange(1, x.len() as int) =~= spaces((k - 1) as nat) + y);
        lemma_trim_start_spaces((k - 1) as nat, y);
    } else {
        assert(x =~= y);
        assert(ws_prefix(y) == 0);
    }
}

pub proof fn lemma_trim_firm(k: nat, y: Seq<u8>)
    requires
        firm(y),
    ensures
        trim(spaces(k) + y) == y,
        trim(y) == y,
{
    lemma_trim_start_spaces(k, y);
    lemma_trim_start_spaces(0, y);
    assert(spaces(0) + y =~= y);
    assert(y[y.len() - 1] == y.last());
    assert(ws_suffix(y) == 0);
}

pub proof fn lemma_after_label(label: Seq<u8>, v: Seq<u8>)
    ensures
        after_prefix(label + v, label) == Some(v),
        after_prefix(v, Seq::empty()) == Some(v),
{
    assert((label + v).subrange(0, label.len() as int) =~= label);
    assert((label + v).subrange(label.len() as int, (label + v).len() as int) =~= v);
    assert(v.subrange(0, 0) =~= Seq::<u8>::empty());
    assert(v.subrange(0, v.len() as int) =~= v);
}

/// A field line whose label and value are firm reads back as its value.
pub proof fn lemma_field_line(b: Seq<u8>, p: int, long: bool, indent: nat, label: Seq<u8>, v: Seq<u8>)
    requires
        no_newline(label),
        no_newline(v),
        firm(v),
        label.len() > 0 ==> plain_byte(label[0]),
        long ==> label.len() > 0,
        has_at(b, p, field(long, indent, label, v)),
    ensures
        line_at(b, p) matches Some((l, n)) && n == p + field(long, indent, label, v).len() && after_prefix(
            trim(l),
            px(long, label),
        ) == Some(v),
{
    lemma_after_label(label, v);
    if long {
        let x = spaces(indent) + label + v;
        assert(no_newline(x)) by {
            assert forall|i: int| 0 <= i < x.len() implies x[i] != 10 by {
                if i < indent {
                } else if i < indent + label.len() {
                    assert(x[i] == label[i - indent]);
                } else {
                    assert(x[i] == v[i - indent - label.len()]);
                }
            }
        }
        lemma_line_at(b, p, x);
        let y = label + v;
        assert(firm(y)) by {
            assert(y[0] == label[0]);
            assert(y.last() == v.last());
        }
        assert(x =~= spaces(indent) + y);
        lemma_trim_firm(indent, y);
    } else {
        lemma_line_at(b, p, v);
        lemma_trim_firm(0, v);
    }
}

/// Reading the text form of this time gives it back (every time built by
/// the library satisfies this).
pub open spec fn time_ok(t: Time) -> bool {
    parse_time(time_text(t)) == Some(t)
}

/// A label of the long format: no newline, and not starting with blank.
pub open spec fn good_label(label: Seq<u8>) -> bool {
    no_newline(label) && label.len() > 0 && plain_byte(label[0])
}

pub proof fn lemma_time_text_firm(t: Time)
    ensures
        firm(time_text(t)),
        no_newline(time_text(t)),
        time_text(t)[0] != 120,
{
    lemma_time_text_shape(t);
    let x = time_text(t);
    assert forall|i: int| 0 <= i < x.len() implies x[i] != 10 by {
        assert(is_digit(x[i]) || x[i] == 45 || x[i] == 46);
    }
}

pub proof fn lemma_quoted_firm(q: Seq<u8>)
    requires
        no_newline(q),
    ensures
        firm(quoted(q)),
        no_newline(quoted(q)),
        unquote(quoted(q)) == Some(q),
{
    let x = quoted(q);
    assert(x[0] == 34);
    assert(x.last() == 34);
    assert forall|i: int| 0 <= i < x.len() implies x[i] != 10 by {
        if 0 < i < x.len() - 1 {
            assert(x[i] == q[i - 1]);
        }
    }
    assert(x.subrange(1, x.len() - 1) =~= q);
}

pub proof fn lemma_digits_firm(n: nat)
    ensures
        firm(digits_of(n)),
        no_newline(digits_of(n)),
        all_digits(digits_of(n)),
        digits_val(digits_of(n)) == n,
{
    lemma_digits_of(n);
    let x = digits_of(n);
    assert(is_digit(x[0]));
    assert(is_digit(x[x.len() - 1]));
    assert forall|i: int| 0 <= i < x.len() implies x[i] != 10 by {
        assert(is_digit(x[i]));
    }
}

pub proof fn lemma_time_line(b: Seq<u8>, p: int, long: bool, indent: nat, label: Seq<u8>, t: Time)
    requires
        time_ok(t),
        good_label(label),
        has_at(b, p, field(long, indent, label, time_text(t))),
    ensures
        time_at(b, p, px(long, label)) == Some((t, p + field(long, indent, label, time_text(t)).len())),
{
    lemma_time_text_firm(t);
    lemma_field_line(b, p, long, indent, label, time_text(t));
}

pub proof fn lemma_text_line(b: Seq<u8>, p: int, long: bool, indent: nat, label: Seq<u8>, c: Seq<char>)
    requires
        no_newline(utf8(c)),
        good_label(label),
        has_at(b, p, field(long, indent, label, quoted(utf8(c)))),
    ensures
        text_at(b, p, px(long, label)) == Some((c, p + field(long, indent, label, quoted(utf8(c))).len())),
{
    lemma_quoted_firm(utf8(c));
    lemma_field_line(b, p, long, indent, label, quoted(utf8(c)));
    vstd::utf8::encode_utf8_valid_utf8(c);
    vstd::utf8::encode_utf8_decode_utf8(c);
}

pub proof fn lemma_count_line(b: Seq<u8>, p: int, long: bool, indent: nat, label: Seq<u8>, n: nat)
    requires
        n <= 0xffff_ffff,
        good_label(label),
        has_at(b, p, field(long, indent, label, digits_of(n))),
    ensures
        count_at(b, p, px(long, label)) == Some((n, p + field(long, indent, label, digits_of(n)).len())),
{
    lemma_digits_firm(n);
    lemma_field_line(b, p, long, indent, label, digits_of(n));
}

pub proof fn lemma_heading(b: Seq<u8>, p: int, long: bool, opener: Seq<u8>, j: nat)
    requires
        no_newline(opener),
        no_newline(close_colon()),
        has_at(b, p, heading(long, opener, j)),
    ensures
        skip_heading(b, p, long) == Some(p + heading(long, opener, j).len()),
{
    if long {
        let x = opener + digits_of(j) + close_colon();
        assert(heading(long, opener, j).len() == x.len() + 1);
        lemma_digits_firm(j);
        assert(no_newline(x)) by {
            assert forall|i: int| 0 <= i < x.len() implies x[i] != 10 by {
                if i < opener.len() {
                    assert(x[i] == opener[i]);
                } else if i < opener.len() + digits_of(j).len() {
                    assert(x[i] == digits_of(j)[i - opener.len()]);
                } else {
                    assert(x[i] == close_colon()[i - opener.len() - digits_of(j).len()]);
                }
            }
        }
        lemma_line_at(b, p, x);
    }
}

pub proof fn lemma_word(w: Seq<u8>)
    requires
        w.len() <= 40,
        forall|i: int| 0 <= i < w.len() ==> 32 <= #[trigger] w[i] < 127,
    ensures
        no_newline(w),
{
}

/// The fixed words have no newline, and labels and header lines do not
/// start or end with blanks.
pub proof fn lemma_words()
    ensures
        good_label(xmin_eq()),
        good_label(xmax_eq()),
        good_label(size_eq()),
        good_label(class_eq()),
        good_label(name_eq()),
        good_label(intervals_size_eq()),
        good_label(points_size_eq()),
        good_label(text_eq()),
        good_label(time_eq()),
        good_label(mark_eq()),
        no_newline(file_type()),
        firm(file_type()),
        no_newline(object_class()),
        firm(object_class()),
        no_newline(tiers_exist()),
        firm(tiers_exist()),
        no_newline(item_list()),
        firm(item_list()),
        no_newline(item_open()),
        no_newline(intervals_open()),
        no_newline(points_open()),
        no_newline(close_colon()),
        interval_tier() != text_tier(),
        no_newline(interval_tier()),
        no_newline(text_tier()),
        xmin_eq()[0] == 120,
        xmin_eq().len() == 7,
{
    lemma_word(xmin_eq());
    assert(good_label(xmin_eq()));
    lemma_word(xmax_eq());
    assert(good_label(xmax_eq()));
    lemma_word(size_eq());
    assert(good_label(size_eq()));
    lemma_word(class_eq());
    assert(good_label(class_eq()));
    lemma_word(name_eq());
    assert(good_label(name_eq()));
    lemma_word(intervals_size_eq());
    assert(good_label(intervals_size_eq()));
    lemma_word(points_size_eq());
    assert(good_label(points_size_eq()));
    lemma_word(text_eq());
    assert(good_label(text_eq()));
    lemma_word(time_eq());
    assert(good_label(time_eq()));
    lemma_word(mark_eq());
    assert(good_label(mark_eq()));
    lemma_word(file_type());
    assert(file_type()[0] != 32 && file_type()[0] != 9);
    lemma_word(object_class());
    assert(object_class()[0] != 32 && object_class()[0] != 9);
    lemma_word(tiers_exist());
    assert(tiers_exist()[0] != 32 && tiers_exist()[0] != 9);
    lemma_word(item_list());
    assert(item_list()[0] != 32 && item_list()[0] != 9);
    lemma_word(item_open());
    lemma_word(intervals_open());
    lemma_word(points_open());
    lemma_word(close_colon());
    lemma_word(interval_tier());
    lemma_word(text_tier());
    assert(interval_tier()[0] != text_tier()[0]);
    assert(firm(file_type()));
    assert(firm(object_class()));
    assert(firm(tiers_exist()));
    assert(firm(item_list()));
}

pub open spec fn interval_plain(iv: IntervalV) -> bool {
    time_ok(iv.xmin) && time_ok(iv.xmax) && no_newline(utf8(iv.text))
}

pub open spec fn point_plain(p: PointV) -> bool {
    time_ok(p.time) && no_newline(utf8(p.mark))
}

/// A tier that reads back as written: its times print exactly, its texts
/// have no line break, its counts fit 32 bits, and it holds only the list
/// its kind selects.
pub open spec fn tier_plain(t: TierV) -> bool {
    &&& time_ok(t.xmin)
    &&& time_ok(t.xmax)
    &&& no_newline(utf8(t.name))
    &&& t.tier_type == TierType::IntervalTier ==> {
        &&& t.points.len() == 0
        &&& t.intervals.len() <= 0xffff_ffff
        &&& forall|i: int| 0 <= i < t.intervals.len() ==> interval_plain(#[trigger] t.intervals[i])
    }
    &&& t.tier_type == TierType::PointTier ==> {
        &&& t.intervals.len() == 0
        &&& t.points.len() <= 0xffff_ffff
        &&& forall|i: int| 0 <= i < t.points.len() ==> point_plain(#[trigger] t.points[i])
    }
}

pub open spec fn doc_plain(d: DocV) -> bool {
    &&& time_ok(d.xmin)
    &&& time_ok(d.xmax)
    &&& d.tiers.len() <= 0xffff_ffff
    &&& forall|k: int| 0 <= k < d.tiers.len() ==> tier_plain(#[trigger] d.tiers[k])
}

pub proof fn lemma_interval(b: Seq<u8>, p: int, iv: IntervalV, j: nat, long: bool)
    requires
        interval_plain(iv),
        has_at(b, p, interval_text(iv, j, long)),
    ensures
        interval_at(b, p, long) == Some((iv, p + interval_text(iv, j, long).len())),
{
    lemma_words();
    let h = heading(long, intervals_open(), j);
    let f1 = field(long, 12, xmin_eq(), time_text(iv.xmin));
    let f2 = field(long, 12, xmax_eq(), time_text(iv.xmax));
    let f3 = field(long, 12, text_eq(), quoted(utf8(iv.text)));
    assert(interval_text(iv, j, long) == h + f1 + f2 + f3);
    lemma_has_at_split(b, p, h + f1 + f2, f3);
    lemma_has_at_split(b, p, h + f1, f2);
    lemma_has_at_split(b, p, h, f1);
    lemma_heading(b, p, long, intervals_open(), j);
    lemma_time_line(b, p + h.len(), long, 12, xmin_eq(), iv.xmin);
    lemma_time_line(b, p + h.len() + f1.len(), long, 12, xmax_eq(), iv.xmax);
    lemma_text_line(b, p + h.len() + f1.len() + f2.len(), long, 12, text_eq(), iv.text);
}

pub proof fn lemma_point(b: Seq<u8>, p: int, pt: PointV, j: nat, long: bool)
    requires
        point_plain(pt),
        has_at(b, p, point_text(pt, j, long)),
    ensures
        point_at(b, p, long) == Some((pt, p + point_text(pt, j, long).len())),
{
    lemma_words();
    let h = heading(long, points_open(), j);
    let f1 = field(long, 12, time_eq(), time_text(pt.time));
    let f2 = field(long, 12, mark_eq(), quoted(utf8(pt.mark)));
    assert(point_text(pt, j, long) == h + f1 + f2);
    lemma_has_at_split(b, p, h + f1, f2);
    lemma_has_at_split(b, p, h, f1);
    lemma_heading(b, p, long, points_open(), j);
    lemma_time_line(b, p + h.len(), long, 12, time_eq(), pt.time);
    lemma_text_line(b, p + h.len() + f1.len(), long, 12, mark_eq(), pt.mark);
}

pub proof fn lemma_intervals(b: Seq<u8>, p: int, s: Seq<IntervalV>, long: bool)
    requires
        forall|i: int| 0 <= i < s.len() ==> interval_plain(#[trigger] s[i]),
        has_at(b, p, intervals_text(s, long)),
    ensures
        intervals_at(b, p, long, s.len()) == Some((s, p + intervals_text(s, long).len())),
    decreases s.len(),
{
    if s.len() > 0 {
        let init = s.drop_last();
        lemma_has_at_split(b, p, intervals_text(init, long), interval_text(s.last(), s.len(), long));
        assert forall|i: int| 0 <= i < init.len() implies interval_plain(#[trigger] init[i]) by {
            assert(init[i] == s[i]);
        }
        lemma_intervals(b, p, init, long);
        assert(interval_plain(s[s.len() - 1]));
        lemma_interval(b, p + intervals_text(init, long).len(), s.last(), s.len(), long);
        assert(init.push(s.last()) =~= s);
    }
}

pub proof fn lemma_points(b: Seq<u8>, p: int, s: Seq<PointV>, long: bool)
    requires
        forall|i: int| 0 <= i < s.len() ==> point_plain(#[trigger] s[i]),
        has_at(b, p, points_text(s, long)),
    ensures
        points_at(b, p, long, s.len()) == Some((s, p + points_text(s, long).len())),
    decreases s.len(),
{
    if s.len() > 0 {
        let init = s.drop_last();
        lemma_has_at_split(b, p, points_text(init, long), point_text(s.last(), s.len(), long));
        assert forall|i: int| 0 <= i < init.len() implies point_plain(#[trigger] init[i]) by {
            assert(init[i] == s[i]);
        }
        lemma_points(b, p, init, long);
        assert(point_plain(s[s.len() - 1]));
        lemma_point(b, p + points_text(init, long).len(), s.last(), s.len(), long);
        assert(init.push(s.last()) =~= s);
    }
}

pub proof fn lemma_class_line(b: Seq<u8>, p: int, long: bool, kind: TierType)
    requires
        has_at(b, p, field(long, 8, class_eq(), quoted(class_word(kind)))),
    ensures
        class_at(b, p, px(long, class_eq())) == Some(
            (kind, p + field(long, 8, class_eq(), quoted(class_word(kind))).len()),
        ),
{
    lemma_words();
    lemma_quoted_firm(class_word(kind));
    lemma_field_line(b, p, long, 8, class_eq(), quoted(class_word(kind)));
}

#[verifier::rlimit(100)]
pub proof fn lemma_tier(b: Seq<u8>, p: int, t: TierV, idx: nat, long: bool)
    requires
        tier_plain(t),
        has_at(b, p, tier_text(t, idx, long)),
    ensures
        tier_at(b, p, long) == Some((t, p + tier_text(t, idx, long).len())),
{
    reveal(tier_at);
    reveal(tier_text);
    lemma_words();
    let h = heading(long, item_open(), idx);
    let f1 = field(long, 8, class_eq(), quoted(class_word(t.tier_type)));
    let f2 = field(long, 8, name_eq(), quoted(utf8(t.name)));
    let f3 = field(long, 8, xmin_eq(), time_text(t.xmin));
    let f4 = field(long, 8, xmax_eq(), time_text(t.xmax));
    let n: nat = if t.tier_type == TierType::IntervalTier {
        t.intervals.len()
    } else {
        t.points.len()
    };
    let f5 = field(long, 8, size_label(t.tier_type), digits_of(n));
    let f6 = if t.tier_type == TierType::IntervalTier {
        intervals_text(t.intervals, long)
    } else {
        points_text(t.points, long)
    };
    assert(tier_text(t, idx, long) == h + f1 + f2 + f3 + f4 + (f5 + f6));
    assert(h + f1 + f2 + f3 + f4 + (f5 + f6) == h + f1 + f2 + f3 + f4 + f5 + f6);
    let q1 = p + h.len();
    let q2 = q1 + f1.len();
    let q3 = q2 + f2.len();
    let q4 = q3 + f3.len();
    let q5 = q4 + f4.len();
    let q6 = q5 + f5.len();
    lemma_has_at_split(b, p, h + f1 + f2 + f3 + f4 + f5, f6);
    lemma_has_at_split(b, p, h + f1 + f2 + f3 + f4, f5);
    lemma_has_at_split(b, p, h + f1 + f2 + f3, f4);
    lemma_has_at_split(b, p, h + f1 + f2, f3);
    lemma_has_at_split(b, p, h + f1, f2);
    lemma_has_at_split(b, p, h, f1);
    lemma_heading(b, p, long, item_open(), idx);
    lemma_class_line(b, q1, long, t.tier_type);
    lemma_text_line(b, q2, long, 8, name_eq(), t.name);
    lemma_time_line(b, q3, long, 8, xmin_eq(), t.xmin);
    lemma_time_line(b, q4, long, 8, xmax_eq(), t.xmax);
    lemma_count_line(b, q5, long, 8, size_label(t.tier_type), n);
    if t.tier_type == TierType::IntervalTier {
        lemma_intervals(b, q6, t.intervals, long);
        assert(t.points =~= Seq::<PointV>::empty());
    } else {
        lemma_points(b, q6, t.points, long);
        assert(t.intervals =~= Seq::<IntervalV>::empty());
    }
}

pub proof fn lemma_tiers(b: Seq<u8>, p: int, s: Seq<TierV>, long: bool)
    requires
        forall|i: int| 0 <= i < s.len() ==> tier_plain(#[trigger] s[i]),
        has_at(b, p, tiers_text(s, long)),
    ensures
        tiers_at(b, p, long, s.len()) == Some((s, p + tiers_text(s, long).len())),
    decreases s.len(),
{
    if s.len() > 0 {
        let init = s.drop_last();
        lemma_has_at_split(b, p, tiers_text(init, long), tier_text(s.last(), s.len(), long));
        assert forall|i: int| 0 <= i < init.len() implies tier_plain(#[trigger] init[i]) by {
            assert(init[i] == s[i]);
        }
        lemma_tiers(b, p, init, long);
        assert(tier_plain(s[s.len() - 1]));
        lemma_tier(b, p + tiers_text(init, long).len(), s.last(), s.len(), long);
        assert(init.push(s.last()) =~= s);
    }
}

pub proof fn lemma_exact_line(b: Seq<u8>, p: int, w: Seq<u8>)
    requires
        no_newline(w),
        firm(w),
        has_at(b, p, line(w)),
    ensures
        line_is(b, p, w) == Some(p + w.len() + 1),
{
    lemma_line_at(b, p, w);
    lemma_trim_firm(0, w);
}

pub open spec fn counted(n: nat, long: bool) -> Seq<u8> {
    if long {
        line(tiers_exist()) + line(size_eq() + digits_of(n)) + line(item_list())
    } else {
        line(digits_of(n))
    }
}

#[verifier::rlimit(100)]
pub proof fn lemma_body(b: Seq<u8>, p2: int, d: DocV, long: bool)
    requires
        doc_plain(d),
        has_at(
            b,
            p2,
            field(long, 0, xmin_eq(), time_text(d.xmin)) + field(long, 0, xmax_eq(), time_text(d.xmax)) + counted(
                d.tiers.len(),
                long,
            ) + tiers_text(d.tiers, long),
        ),
    ensures
        body_at(b, p2, long) == Some(d),
{
    reveal(body_at);
    lemma_words();
    let f1 = field(long, 0, xmin_eq(), time_text(d.xmin));
    let f2 = field(long, 0, xmax_eq(), time_text(d.xmax));
    let n = d.tiers.len();
    let mid = counted(n, long);
    let ts = tiers_text(d.tiers, long);
    lemma_has_at_split(b, p2, f1 + f2 + mid, ts);
    lemma_has_at_split(b, p2, f1 + f2, mid);
    lemma_has_at_split(b, p2, f1, f2);
    lemma_time_line(b, p2, long, 0, xmin_eq(), d.xmin);
    let p3 = p2 + f1.len();
    lemma_time_line(b, p3, long, 0, xmax_eq(), d.xmax);
    let p4 = p3 + f2.len();
    lemma_digits_firm(n);
    if long {
        let m1 = line(tiers_exist());
        let m2 = line(size_eq() + digits_of(n));
        let m3 = line(item_list());
        lemma_has_at_split(b, p4, m1 + m2, m3);
        lemma_has_at_split(b, p4, m1, m2);
        lemma_exact_line(b, p4, tiers_exist());
        assert(m2 == field(true, 0, size_eq(), digits_of(n))) by {
            assert(spaces(0) + size_eq() + digits_of(n) =~= size_eq() + digits_of(n));
        }
        lemma_count_line(b, p4 + m1.len(), true, 0, size_eq(), n);
        lemma_line_at(b, p4 + m1.len() + m2.len(), item_list());
    } else {
        assert(mid == field(false, 0, size_eq(), digits_of(n)));
        lemma_count_line(b, p4, false, 0, size_eq(), n);
    }
    lemma_tiers(b, p4 + mid.len(), d.tiers, long);
}

pub proof fn lemma_format_told(b: Seq<u8>, p2: int, d: DocV, long: bool)
    requires
        time_ok(d.xmin),
        has_at(b, p2, field(long, 0, xmin_eq(), time_text(d.xmin))),
    ensures
        is_long(b, p2) == long,
{
    lemma_words();
    lemma_time_text_firm(d.xmin);
    lemma_field_line(b, p2, long, 0, xmin_eq(), time_text(d.xmin));
    if !long {
        let l = match line_at(b, p2) {
            Some((l, _)) => l,
            None => Seq::empty(),
        };
        lemma_trim_firm(0, time_text(d.xmin));
        if after_prefix(trim(l), xmin_eq()) is Some {
            assert(trim(l).subrange(0, 7)[0] == time_text(d.xmin)[0]);
        }
    } else {
        lemma_after_label(xmin_eq(), time_text(d.xmin));
    }
}

/// Reading back a written document gives the document, in either text
/// format: for every document whose times print exactly (all that the
/// library builds do), whose names and texts hold no line break, whose
/// counts fit 32 bits and whose tiers hold only the list their kind selects.
#[verifier::rlimit(100)]
pub proof fn lemma_text_round_trip(d: DocV, long: bool)
    requires
        doc_plain(d),
    ensures
        text_doc(doc_text(d, long)) == Some(d),
{
    lemma_words();
    let b = doc_text(d, long);
    let l1 = line(file_type());
    let l2 = line(object_class());
    let f1 = field(long, 0, xmin_eq(), time_text(d.xmin));
    let tail = field(long, 0, xmax_eq(), time_text(d.xmax)) + counted(d.tiers.len(), long) + tiers_text(
        d.tiers,
        long,
    );
    let rest = f1 + tail;
    assert(b =~= l1 + l2 + rest);
    assert(has_at(b, 0, b)) by {
        assert(b.subrange(0, b.len() as int) =~= b);
    }
    lemma_has_at_split(b, 0, l1 + l2, rest);
    lemma_has_at_split(b, 0, l1, l2);
    lemma_line_at(b, 0, file_type());
    let p1 = l1.len() as int;
    lemma_line_at(b, p1, object_class());
    let p2 = p1 + l2.len();
    lemma_has_at_split(b, p2, f1, tail);
    lemma_format_told(b, p2, d, long);
    assert(rest == field(long, 0, xmin_eq(), time_text(d.xmin)) + field(long, 0, xmax_eq(), time_text(d.xmax))
        + counted(d.tiers.len(), long) + tiers_text(d.tiers, long));
    lemma_body(b, p2, d, long);
}

pub open spec fn tier_times_exact(t: TierV) -> bool {
    &&& time_ok(t.xmin)
    &&& time_ok(t.xmax)
    &&& t.tier_type == TierType::IntervalTier ==> forall|i: int|
        0 <= i < t.intervals.len() ==> time_ok((#[trigger] t.intervals[i]).xmin) && time_ok(t.intervals[i].xmax)
    &&& t.tier_type == TierType::PointTier ==> forall|i: int|
        0 <= i < t.points.len() ==> time_ok((#[trigger] t.points[i]).time)
}

/// Every time the text formats write reads back as itself.
pub open spec fn doc_times_exact(d: DocV) -> bool {
    &&& time_ok(d.xmin)
    &&& time_ok(d.xmax)
    &&& forall|k: int| 0 <= k < d.tiers.len() ==> tier_times_exact(#[trigger] d.tiers[k])
}

pub open spec fn tier_texts_fit(t: TierV) -> bool {
    &&& no_newline(utf8(t.name))
    &&& t.tier_type == TierType::IntervalTier ==> {
        &&& t.points.len() == 0
        &&& t.intervals.len() <= 0xffff_ffff
        &&& forall|i: int| 0 <= i < t.intervals.len() ==> no_newline(utf8((#[trigger] t.intervals[i]).text))
    }
    &&& t.tier_type == TierType::PointTier ==> {
        &&& t.intervals.len() == 0
        &&& t.points.len() <= 0xffff_ffff
        &&& forall|i: int| 0 <= i < t.points.len() ==> no_newline(utf8((#[trigger] t.points[i]).mark))
    }
}

/// Names and texts hold no line break, counts fit 32 bits, and each tier
/// holds only the list its kind selects.
pub open spec fn doc_texts_fit(d: DocV) -> bool {
    &&& d.tiers.len() <= 0xffff_ffff
    &&& forall|k: int| 0 <= k < d.tiers.len() ==> tier_texts_fit(#[trigger] d.tiers[k])
}

pub proof fn lemma_plain(d: DocV)
    requires
        doc_times_exact(d),
        doc_texts_fit(d),
    ensures
        doc_plain(d),
{
    assert forall|k: int| 0 <= k < d.tiers.len() implies tier_plain(#[trigger] d.tiers[k]) by {
        let t = d.tiers[k];
        assert(tier_times_exact(t) && tier_texts_fit(t));
        if t.tier_type == TierType::IntervalTier {
            assert forall|i: int| 0 <= i < t.intervals.len() implies interval_plain(#[trigger] t.intervals[i]) by {
                assert(time_ok(t.intervals[i].xmin));
                assert(no_newline(utf8(t.intervals[i].text)));
            }
        } else {
            assert forall|i: int| 0 <= i < t.points.len() implies point_plain(#[trigger] t.points[i]) by {
                assert(time_ok(t.points[i].time));
                assert(no_newline(utf8(t.points[i].mark)));
            }
        }
    }
}

} // verus!
