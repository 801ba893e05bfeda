//! Lines and fields of the text formats: line splitting, trimming, prefixed
//! numbers, counts and quoted strings.
use vstd::prelude::*;

use crate::model::{TextGridError, err_msg, string_from_utf8};
use crate::time::{Time, all_digits, digits_val, is_digit, parse_time};

verus! {

/// ASCII white space: tab, line feed, vertical tab, form feed, carriage
/// return and space.
pub open spec fn is_ws(c: u8) -> bool {
    c == 32 || (9 <= c && c <= 13)
}

/// The three-byte UTF-8 encodings of Unicode white space: U+1680,
/// U+2000 to U+200A, U+2028, U+2029, U+202F, U+205F and U+3000.
pub open spec fn ws3(a: u8, b: u8, c: u8) -> bool {
    ||| a == 0xe1 && b == 0x9a && c == 0x80
    ||| a == 0xe2 && b == 0x80 && ((0x80 <= c && c <= 0x8a) || c == 0xa8 || c == 0xa9 || c == 0xaf)
    ||| a == 0xe2 && b == 0x81 && c == 0x9f
    ||| a == 0xe3 && b == 0x80 && c == 0x80
}

/// The two-byte UTF-8 encodings of Unicode white space: U+0085 and U+00A0.
pub open spec fn ws2(a: u8, b: u8) -> bool {
    a == 0xc2 && (b == 0x85 || b == 0xa0)
}

/// The length of the encoding of a Unicode White_Space character that
/// starts `s`, or 0 when `s` starts with none.
pub open spec fn ws_prefix(s: Seq<u8>) -> nat {
    if s.len() >= 1 && is_ws(s[0]) {
        1
    } else if s.len() >= 2 && ws2(s[0], s[1]) {
        2
    } else if s.len() >= 3 && ws3(s[0], s[1], s[2]) {
        3
    } else {
        0
    }
}

/// The length of the encoding of a Unicode White_Space character that
/// ends `s`, or 0 when `s` ends with none.
pub open spec fn ws_suffix(s: Seq<u8>) -> nat {
    let n = s.len() as int;
    if n >= 1 && is_ws(s[n - 1]) {
        1
    } else if n >= 2 && ws2(s[n - 2], s[n - 1]) {
        2
    } else if n >= 3 && ws3(s[n - 3], s[n - 2], s[n - 1]) {
        3
    } else {
        0
    }
}

pub open spec fn trim_start(s: Seq<u8>) -> Seq<u8>
    decreases s.len(),
{
    if ws_prefix(s) > 0 {
        trim_start(s.subrange(ws_prefix(s) as int, s.len() as int))
    } else {
        s
    }
}

pub open spec fn trim_end(s: Seq<u8>) -> Seq<u8>
    decreases s.len(),
{
    if ws_suffix(s) > 0 {
        trim_end(s.subrange(0, s.len() - ws_suffix(s)))
    } else {
        s
    }
}

/// The line without the Unicode white space at either end (as
/// `str::trim`), judged on the UTF-8 encodings of those characters.
pub open spec fn trim(s: Seq<u8>) -> Seq<u8> {
    trim_end(trim_start(s))
}

/// `ws_prefix` of `b[s..e]`.
fn ws_at_start(b: &[u8], s: usize, e: usize) -> (r: usize)
    requires
        s <= e <= b.len(),
    ensures
        r == ws_prefix(b@.subrange(s as int, e as int)),
{
    let ghost x = b@.subrange(s as int, e as int);
    let n = e - s;
    if n >= 1 {
        assert(x[0] == b@[s as int]);
    }
    if n >= 2 {
        assert(x[1] == b@[s + 1]);
    }
    if n >= 3 {
        assert(x[2] == b@[s + 2]);
    }
    if n >= 1 && (b[s] == 32u8 || (9u8 <= b[s] && b[s] <= 13u8)) {
        1
    } else if n >= 2 && b[s] == 0xc2u8 && (b[s + 1] == 0x85u8 || b[s + 1] == 0xa0u8) {
        2
    } else if n >= 3 && ws3_exec(b[s], b[s + 1], b[s + 2]) {
        3
    } else {
        0
    }
}

/// `ws_suffix` of `b[s..e]`.
fn ws_at_end(b: &[u8], s: usize, e: usize) -> (r: usize)
    requires
        s <= e <= b.len(),
    ensures
        r == ws_suffix(b@.subrange(s as int, e as int)),
{
    let ghost x = b@.subrange(s as int, e as int);
    let n = e - s;
    if n >= 1 {
        assert(x[n - 1] == b@[e - 1]);
    }
    if n >= 2 {
        assert(x[n - 2] == b@[e - 2]);
    }
    if n >= 3 {
        assert(x[n - 3] == b@[e - 3]);
    }
    if n >= 1 && (b[e - 1] == 32u8 || (9u8 <= b[e - 1] && b[e - 1] <= 13u8)) {
        1
    } else if n >= 2 && b[e - 2] == 0xc2u8 && (b[e - 1] == 0x85u8 || b[e - 1] == 0xa0u8) {
        2
    } else if n >= 3 && ws3_exec(b[e - 3], b[e - 2], b[e - 1]) {
        3
    } else {
        0
    }
}

fn ws3_exec(a: u8, b: u8, c: u8) -> (r: bool)
    ensures
        r == ws3(a, b, c),
{
    (a == 0xe1u8 && b == 0x9au8 && c == 0x80u8) || (a == 0xe2u8 && b == 0x80u8 && ((0x80u8 <= c && c <= 0x8au8)
        || c == 0xa8u8 || c == 0xa9u8 || c == 0xafu8)) || (a == 0xe2u8 && b == 0x81u8 && c == 0x9fu8) || (a
        == 0xe3u8 && b == 0x80u8 && c == 0x80u8)
}

/// `e` ends the line that starts at `pos`: no newline before it, and a
/// newline or the end of input at it.
pub open spec fn line_end_at(b: Seq<u8>, pos: int, e: int) -> bool {
    &&& pos <= e <= b.len()
    &&& forall|j: int| pos <= j < e ==> b[j] != 10
    &&& (e == b.len() || b[e] == 10)
}

pub open spec fn line_end(b: Seq<u8>, pos: int) -> int {
    choose|e: int| line_end_at(b, pos, e)
}

/// The line starting at `pos` and where the next one starts; none at the
/// end of input.
pub open spec fn line_at(b: Seq<u8>, pos: int) -> Option<(Seq<u8>, int)> {
    if 0 <= pos < b.len() {
        let e = line_end(b, pos);
        Some((b.subrange(pos, e), if e < b.len() { e + 1 } else { e }))
    } else {
        None
    }
}

pub open spec fn after_prefix(t: Seq<u8>, p: Seq<u8>) -> Option<Seq<u8>> {
    if t.len() >= p.len() && t.subrange(0, p.len() as int) == p {
        Some(t.subrange(p.len() as int, t.len() as int))
    } else {
        None
    }
}

pub open spec fn unquote(r: Seq<u8>) -> Option<Seq<u8>> {
    if r.len() >= 2 && r[0] == 34 && r.last() == 34 {
        Some(r.subrange(1, r.len() - 1))
    } else {
        None
    }
}

/// A time after `p` on a trimmed line.
pub open spec fn time_field(l: Seq<u8>, p: Seq<u8>) -> Option<Time> {
    match after_prefix(trim(l), p) {
        Some(r) => parse_time(r),
        None => None,
    }
}

/// The bytes between the quotes after `p` on a trimmed line.
pub open spec fn quoted_field(l: Seq<u8>, p: Seq<u8>) -> Option<Seq<u8>> {
    match after_prefix(trim(l), p) {
        Some(r) => unquote(r),
        None => None,
    }
}

/// A count after `p`: a non-empty run of digits worth at most `u32::MAX`.
pub open spec fn count_field(l: Seq<u8>, p: Seq<u8>) -> Option<nat> {
    match after_prefix(trim(l), p) {
        Some(r) => if r.len() > 0 && all_digits(r) && digits_val(r) <= 0xffff_ffff {
            Some(digits_val(r))
        } else {
            None
        },
        None => None,
    }
}

/// A quoted field read as UTF-8 text.
pub open spec fn text_field(l: Seq<u8>, p: Seq<u8>) -> Option<Seq<char>> {
    match quoted_field(l, p) {
        Some(q) => if vstd::utf8::valid_utf8(q) {
            Some(vstd::utf8::decode_utf8(q))
        } else {
            None
        },
        None => None,
    }
}

pub proof fn lemma_line_end_unique(b: Seq<u8>, pos: int, e: int)
    requires
        line_end_at(b, pos, e),
    ensures
        line_end(b, pos) == e,
{
    let c = line_end(b, pos);
    assert(line_end_at(b, pos, c));
    if c < e {
        assert(b[c] != 10);
    }
    if e < c {
        assert(b[e] != 10);
    }
}

/// The range of `b[from..to]` left after trimming both ends.
pub fn trim_range(b: &[u8], from: usize, to: usize) -> (r: (usize, usize))
    requires
        from <= to <= b.len(),
    ensures
        from <= r.0 <= r.1 <= to,
        b@.subrange(r.0 as int, r.1 as int) == trim(b@.subrange(from as int, to as int)),
{
    let ghost l = b@.subrange(from as int, to as int);
    let mut s = from;
    loop
        invariant
            from <= s <= to <= b.len(),
            trim_start(l) == trim_start(b@.subrange(s as int, to as int)),
        ensures
            from <= s <= to,
            trim_start(l) == trim_start(b@.subrange(s as int, to as int)),
            ws_prefix(b@.subrange(s as int, to as int)) == 0,
        decreases to - s,
    {
        let k = ws_at_start(b, s, to);
        if k == 0 {
            break;
        }
        assert(b@.subrange(s + k, to as int) =~= b@.subrange(s as int, to as int).subrange(k as int, (to - s) as int));
        s = s + k;
    }
    assert(trim_start(b@.subrange(s as int, to as int)) == b@.subrange(s as int, to as int));
    let mut t = to;
    loop
        invariant
            from <= s <= t <= to <= b.len(),
            trim(l) == trim_end(b@.subrange(s as int, t as int)),
        ensures
            from <= s <= t <= to,
            trim(l) == trim_end(b@.subrange(s as int, t as int)),
            ws_suffix(b@.subrange(s as int, t as int)) == 0,
        decreases t - s,
    {
        let k = ws_at_end(b, s, t);
        if k == 0 {
            break;
        }
        assert(b@.subrange(s as int, t - k) =~= b@.subrange(s as int, t as int).subrange(0, (t - s - k) as int));
        t = t - k;
    }
    (s, t)
}

/// The line at `pos`, as the range of its content and where the next line
/// starts.
pub fn line_bounds(b: &[u8], pos: usize) -> (r: Option<(usize, usize)>)
    ensures
        r is Some <==> line_at(b@, pos as int) is Some,
        r matches Some((e, nx)) ==> {
            &&& pos <= e <= b.len()
            &&& line_at(b@, pos as int) == Some((b@.subrange(pos as int, e as int), nx as int))
        },
{
    let n = b.len();
    if pos >= n {
        return None;
    }
    let mut e = pos;
    while e < n && b[e] != 10u8
        invariant
            pos <= e <= n,
            n == b.len(),
            forall|j: int| pos <= j < e ==> b@[j] != 10,
        decreases n - e,
    {
        e = e + 1;
    }
    proof {
        lemma_line_end_unique(b@, pos as int, e as int);
    }
    let nx = if e < n {
        e + 1
    } else {
        e
    };
    Some((e, nx))
}

/// The line at `pos`, as the range of its trimmed content and where the
/// next line starts.
pub fn read_line(b: &[u8], pos: usize) -> (r: Option<(usize, usize, usize)>)
    ensures
        r is Some <==> line_at(b@, pos as int) is Some,
        r matches Some((s, e, nx)) ==> {
            &&& s <= e <= b.len()
            &&& line_at(b@, pos as int) matches Some((l, n)) && n == nx && b@.subrange(s as int, e as int) == trim(l)
        },
{
    let n = b.len();
    if pos >= n {
        return None;
    }
    let mut e = pos;
    while e < n && b[e] != 10u8
        invariant
            pos <= e <= n,
            n == b.len(),
            forall|j: int| pos <= j < e ==> b@[j] != 10,
        decreases n - e,
    {
        e = e + 1;
    }
    proof {
        lemma_line_end_unique(b@, pos as int, e as int);
    }
    let (s, t) = trim_range(b, pos, e);
    let nx = if e < n {
        e + 1
    } else {
        e
    };
    Some((s, t, nx))
}

/// The bytes between the quotes after `p` in the range `b[s..e]`.
pub fn quoted_in(b: &[u8], s: usize, e: usize, p: &Vec<u8>) -> (r: Option<Vec<u8>>)
    requires
        s <= e <= b.len(),
    ensures
        r is Some <==> (after_prefix(b@.subrange(s as int, e as int), p@) matches Some(x) && unquote(x) is Some),
        r matches Some(q) ==> (after_prefix(b@.subrange(s as int, e as int), p@) matches Some(x) && unquote(x)
            == Some(q@)),
{
    if !starts_with(b, s, e, p) {
        return None;
    }
    let from = s + p.len();
    let ghost r = b@.subrange(from as int, e as int);
    assert(r =~= b@.subrange(s as int, e as int).subrange(p.len() as int, (e - s) as int));
    if e - from < 2 || b[from] != 34u8 || b[e - 1] != 34u8 {
        return None;
    }
    let inner = vstd::slice::slice_to_vec(vstd::slice::slice_subrange(b, from + 1, e - 1));
    assert(inner@ =~= r.subrange(1, r.len() - 1));
    Some(inner)
}

/// Whether `b[s..e]` starts with `p`.
pub fn starts_with(b: &[u8], s: usize, e: usize, p: &Vec<u8>) -> (r: bool)
    requires
        s <= e <= b.len(),
    ensures
        r == (after_prefix(b@.subrange(s as int, e as int), p@) is Some),
{
    let ghost t = b@.subrange(s as int, e as int);
    if e - s < p.len() {
        return false;
    }
    let mut i: usize = 0;
    while i < p.len()
        invariant
            i <= p.len(),
            s + p.len() <= e <= b.len(),
            t == b@.subrange(s as int, e as int),
            forall|j: int| 0 <= j < i ==> b@[s + j] == p@[j],
        decreases p.len() - i,
    {
        if b[s + i] != p[i] {
            assert(t.subrange(0, p.len() as int)[i as int] != p@[i as int]);
            return false;
        }
        i = i + 1;
    }
    assert(t.subrange(0, p.len() as int) =~= p@);
    true
}

fn append(out: &mut Vec<u8>, src: &[u8]) {
    let mut i: usize = 0;
    while i < src.len()
        decreases src.len() - i,
    {
        out.push(src[i]);
        i = i + 1;
    }
}

/// A malformed-input error whose message names what was expected, the
/// expected prefix and the offending line.
pub fn malformed_at(what: &str, prefix: &[u8], line: &[u8]) -> (r: TextGridError)
    ensures
        r matches TextGridError::MalformedInput(_),
{
    let mut m: Vec<u8> = Vec::new();
    append(&mut m, what.as_bytes());
    append(&mut m, ": expected prefix '".as_bytes());
    append(&mut m, prefix);
    append(&mut m, "' in '".as_bytes());
    append(&mut m, line);
    append(&mut m, "'".as_bytes());
    match string_from_utf8(m) {
        Some(text) => TextGridError::MalformedInput(text),
        None => TextGridError::MalformedInput(err_msg(what)),
    }
}

/// The time after `p` on the line at `pos`, and where the next line starts.
pub fn read_time(b: &[u8], pos: usize, p: &Vec<u8>) -> (r: Result<(Time, usize), TextGridError>)
    ensures
        r is Ok <==> (line_at(b@, pos as int) matches Some((l, _)) && time_field(l, p@) is Some),
        r matches Ok((t, nx)) ==> line_at(b@, pos as int) matches Some((l, n)) && n == nx && time_field(
            l,
            p@,
        ) == Some(t),
        r is Err ==> r matches Err(TextGridError::MalformedInput(_)),
{
    let (s, e, nx) = match read_line(b, pos) {
        Some(x) => x,
        None => {
            return Err(TextGridError::MalformedInput(err_msg("unexpected end of input")));
        },
    };
    let line = vstd::slice::slice_subrange(b, s, e);
    if !starts_with(b, s, e, p) {
        return Err(malformed_at("missing label", p.as_slice(), line));
    }
    let rest = vstd::slice::slice_subrange(b, s + p.len(), e);
    assert(rest@ =~= b@.subrange(s as int, e as int).subrange(p.len() as int, (e - s) as int));
    match Time::parse(rest) {
        Some(t) => Ok((t, nx)),
        None => Err(malformed_at("not a number", p.as_slice(), line)),
    }
}

/// The count after `p` on the line at `pos`, and where the next line starts.
pub fn read_count(b: &[u8], pos: usize, p: &Vec<u8>) -> (r: Result<(u32, usize), TextGridError>)
    ensures
        r is Ok <==> (line_at(b@, pos as int) matches Some((l, _)) && count_field(l, p@) is Some),
        r matches Ok((c, nx)) ==> line_at(b@, pos as int) matches Some((l, n)) && n == nx && count_field(
            l,
            p@,
        ) == Some(c as nat),
        r is Err ==> r matches Err(TextGridError::MalformedInput(_)),
{
    let (s, e, nx) = match read_line(b, pos) {
        Some(x) => x,
        None => {
            return Err(TextGridError::MalformedInput(err_msg("unexpected end of input")));
        },
    };
    let line = vstd::slice::slice_subrange(b, s, e);
    if !starts_with(b, s, e, p) {
        return Err(malformed_at("missing label", p.as_slice(), line));
    }
    let from = s + p.len();
    let ghost r = b@.subrange(from as int, e as int);
    let ghost l = line_at(b@, pos as int).unwrap().0;
    assert(r =~= b@.subrange(s as int, e as int).subrange(p.len() as int, (e - s) as int));
    assert(after_prefix(trim(l), p@) == Some(r));
    if from == e {
        return Err(malformed_at("missing count", p.as_slice(), line));
    }
    let mut v: u64 = 0;
    let mut i = from;
    while i < e
        invariant
            from <= i <= e <= b.len(),
            r == b@.subrange(from as int, e as int),
            r.len() > 0,
            after_prefix(trim(l), p@) == Some(r),
            line_at(b@, pos as int) matches Some((ll, n)) && ll == l && n == nx,
            all_digits(b@.subrange(from as int, i as int)),
            v as nat == digits_val(b@.subrange(from as int, i as int)),
            v <= 0xffff_ffff,
        decreases e - i,
    {
        let c = b[i];
        let ghost nxt = b@.subrange(from as int, i + 1);
        assert(nxt.drop_last() =~= b@.subrange(from as int, i as int));
        if !(48u8 <= c && c <= 57u8) {
            assert(!is_digit(r[i - from]));
            return Err(malformed_at("not a count", p.as_slice(), line));
        }
        let nv: u64 = v * 10 + (c - 48u8) as u64;
        if nv > 0xffff_ffff {
            proof {
                let rest = b@.subrange(i + 1, e as int);
                if all_digits(r) {
                    assert(all_digits(rest)) by {
                        assert forall|j: int| 0 <= j < rest.len() implies is_digit(#[trigger] rest[j]) by {
                            assert(rest[j] == r[i + 1 + j - from]);
                        }
                    }
                    crate::time::lemma_digits_val_mono(nxt, rest);
                    assert(nxt + rest =~= r);
                }
            }
            return Err(malformed_at("count too large", p.as_slice(), line));
        }
        v = nv;
        i = i + 1;
        assert(all_digits(b@.subrange(from as int, i as int))) by {
            assert forall|j: int| 0 <= j < i - from implies is_digit(#[trigger] b@.subrange(from as int, i as int)[j]) by {
                assert(b@.subrange(from as int, i as int)[j] == b@[from + j]);
                if j < i - 1 - from {
                    assert(b@.subrange(from as int, i - 1)[j] == b@[from + j]);
                }
            }
        }
    }
    assert(b@.subrange(from as int, e as int) == r);
    Ok((v as u32, nx))
}

/// The bytes between the quotes after `p` on the line at `pos`.
pub fn read_quoted(b: &[u8], pos: usize, p: &Vec<u8>) -> (r: Result<(Vec<u8>, usize), TextGridError>)
    ensures
        r is Ok <==> (line_at(b@, pos as int) matches Some((l, _)) && quoted_field(l, p@) is Some),
        r matches Ok((q, nx)) ==> line_at(b@, pos as int) matches Some((l, n)) && n == nx && quoted_field(
            l,
            p@,
        ) == Some(q@),
        r is Err ==> r matches Err(TextGridError::MalformedInput(_)),
{
    let (s, e, nx) = match read_line(b, pos) {
        Some(x) => x,
        None => {
            return Err(TextGridError::MalformedInput(err_msg("unexpected end of input")));
        },
    };
    match quoted_in(b, s, e, p) {
        Some(q) => Ok((q, nx)),
        None => Err(malformed_at("expected a quoted string", p.as_slice(), vstd::slice::slice_subrange(b, s, e))),
    }
}

/// The text between the quotes after `p` on the line at `pos`.
pub fn read_text(b: &[u8], pos: usize, p: &Vec<u8>) -> (r: Result<(String, usize), TextGridError>)
    ensures
        r is Ok <==> (line_at(b@, pos as int) matches Some((l, _)) && text_field(l, p@) is Some),
        r matches Ok((t, nx)) ==> line_at(b@, pos as int) matches Some((l, n)) && n == nx && text_field(
            l,
            p@,
        ) == Some(t@),
        r is Err ==> r matches Err(TextGridError::MalformedInput(_)),
{
    let (q, nx) = match read_quoted(b, pos, p) {
        Ok(x) => x,
        Err(e) => {
            return Err(e);
        },
    };
    match string_from_utf8(q) {
        Some(t) => Ok((t, nx)),
        None => Err(TextGridError::MalformedInput(err_msg("invalid UTF-8 in a quoted string"))),
    }
}

/// The quoted value after `prefix` on a line, as text; the line's ends are
/// trimmed first.
pub fn extract_quoted_value(line: Option<&[u8]>, prefix: &[u8]) -> (r: Result<String, TextGridError>)
    ensures
        line is None ==> r is Err,
        line matches Some(l) ==> (r is Ok <==> text_field(l@, prefix@) is Some),
        line matches Some(l) ==> (r matches Ok(t) ==> text_field(l@, prefix@) == Some(t@)),
        r is Err ==> r matches Err(TextGridError::MalformedInput(_)),
{
    let l = match line {
        Some(l) => l,
        None => {
            return Err(TextGridError::MalformedInput(err_msg("unexpected end of input")));
        },
    };
    let p = vstd::slice::slice_to_vec(prefix);
    let (s, e) = trim_range(l, 0, l.len());
    assert(l@.subrange(0, l@.len() as int) =~= l@);
    let q = match quoted_in(l, s, e, &p) {
        Some(q) => q,
        None => {
            return Err(malformed_at("expected a quoted string", prefix, vstd::slice::slice_subrange(l, s, e)));
        },
    };
    match string_from_utf8(q) {
        Some(t) => Ok(t),
        None => Err(TextGridError::MalformedInput(err_msg("invalid UTF-8 in a quoted string"))),
    }
}

/// The quoted value on a line that holds nothing else.
pub fn extract_quoted_value_short(line: Option<&[u8]>) -> (r: Result<String, TextGridError>)
    ensures
        line is None ==> r is Err,
        line matches Some(l) ==> (r is Ok <==> text_field(l@, Seq::empty()) is Some),
        line matches Some(l) ==> (r matches Ok(t) ==> text_field(l@, Seq::empty()) == Some(t@)),
        r is Err ==> r matches Err(TextGridError::MalformedInput(_)),
{
    let empty: Vec<u8> = Vec::new();
    extract_quoted_value(line, empty.as_slice())
}

} // verus!
