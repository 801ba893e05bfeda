//! Exact decimal time values.
//!
//! A `Time` is `units * 10^-scale` seconds, with at most eighteen fractional
//! digits. Times are ordered by their numeric value, so `1.5` and `1.50`
//! compare equal while keeping the digits they were written with.
use vstd::prelude::*;

verus! {

/// Largest number of fractional digits a time may carry.
pub const MAX_SCALE: u8 = 18;

pub open spec fn pow10(k: nat) -> nat
    decreases k,
{
    if k == 0 {
        1
    } else {
        10 * pow10((k - 1) as nat)
    }
}

pub proof fn lemma_pow10_positive(k: nat)
    ensures
        pow10(k) >= 1,
    decreases k,
{
    if k > 0 {
        lemma_pow10_positive((k - 1) as nat);
    }
}

/// A time in seconds, held exactly as a decimal number.
#[derive(Clone, Copy, Debug, PartialEq, Eq, Structural)]
pub struct Time {
    units: i64,
    scale: u8,
}

impl Time {
    #[verifier::type_invariant]
    spec fn inv(self) -> bool {
        self.scale <= MAX_SCALE
    }

    /// The integer part of the decimal representation, sign included.
    pub closed spec fn units_spec(self) -> int {
        self.units as int
    }

    /// The number of fractional digits.
    pub closed spec fn scale_spec(self) -> nat {
        self.scale as nat
    }

    /// The value in units of `10^-18` seconds, which orders all times.
    pub open spec fn val(self) -> int {
        self.units_spec() * pow10((MAX_SCALE - self.scale_spec()) as nat) as int
    }

    /// Builds `units * 10^-scale`; `None` when `scale` exceeds the supported precision.
    pub fn new(units: i64, scale: u8) -> (r: Option<Time>)
        ensures
            scale <= MAX_SCALE <==> r is Some,
            r matches Some(t) ==> t.units_spec() == units && t.scale_spec() == scale,
    {
        if scale <= MAX_SCALE {
            Some(Time { units, scale })
        } else {
            None
        }
    }

    /// A whole number of seconds.
    pub fn from_seconds(secs: i64) -> (r: Time)
        ensures
            r.units_spec() == secs,
            r.scale_spec() == 0,
            r.val() == secs * pow10(MAX_SCALE as nat),
    {
        Time { units: secs, scale: 0 }
    }

    pub fn units(&self) -> (r: i64)
        ensures
            r == self.units_spec(),
    {
        self.units
    }

    pub fn scale(&self) -> (r: u8)
        ensures
            r == self.scale_spec(),
    {
        self.scale
    }

    /// The value in units of `10^-18` seconds.
    fn scaled(&self) -> (r: i128)
        ensures
            r == self.val(),
    {
        proof {
            use_type_invariant(self);
        }
        let k: u8 = MAX_SCALE - self.scale;
        let mut p: i128 = 1;
        let mut i: u8 = 0;
        while i < k
            invariant
                i <= k,
                k <= MAX_SCALE,
                p == pow10(i as nat),
            decreases k - i,
        {
            proof {
                assert(pow10((i + 1) as nat) == 10 * pow10(i as nat));
                lemma_pow10_le_1e18((i + 1) as nat);
            }
            p = p * 10;
            i = i + 1;
        }
        proof {
            lemma_pow10_le_1e18(k as nat);
            let u = self.units as int;
            let q = p as int;
            assert(-0x8000_0000_0000_0000 * 1_000_000_000_000_000_000 <= u * q
                <= 0x7fff_ffff_ffff_ffff * 1_000_000_000_000_000_000) by (nonlinear_arith)
                requires
                    -0x8000_0000_0000_0000 <= u <= 0x7fff_ffff_ffff_ffff,
                    1 <= q <= 1_000_000_000_000_000_000,
            ;
        }
        (self.units as i128) * p
    }

    /// Numeric `<`.
    pub fn lt(&self, other: &Time) -> (r: bool)
        ensures
            r == (self.val() < other.val()),
    {
        self.scaled() < other.scaled()
    }

    /// Numeric `<=`.
    pub fn le(&self, other: &Time) -> (r: bool)
        ensures
            r == (self.val() <= other.val()),
    {
        self.scaled() <= other.scaled()
    }

    /// Numeric equality: `1.5` equals `1.50`.
    pub fn same(&self, other: &Time) -> (r: bool)
        ensures
            r == (self.val() == other.val()),
    {
        self.scaled() == other.scaled()
    }

    /// The later of two times (the first one when they are equal).
    pub fn max(&self, other: &Time) -> (r: Time)
        ensures
            r == (if self.val() < other.val() { *other } else { *self }),
    {
        if self.lt(other) {
            *other
        } else {
            *self
        }
    }
}

pub proof fn lemma_pow10_le_1e18(k: nat)
    requires
        k <= MAX_SCALE,
    ensures
        pow10(k) <= 1_000_000_000_000_000_000,
        pow10(k) >= 1,
{
    lemma_pow10_positive(k);
    lemma_pow10_mono(k, 18);
    reveal_with_fuel(pow10, 19);
}

proof fn lemma_pow10_mono(a: nat, b: nat)
    requires
        a <= b,
    ensures
        pow10(a) <= pow10(b),
    decreases b,
{
    if a < b {
        lemma_pow10_mono(a, (b - 1) as nat);
        lemma_pow10_positive((b - 1) as nat);
    }
}

pub open spec fn is_digit(c: u8) -> bool {
    48 <= c <= 57
}

pub open spec fn all_digits(s: Seq<u8>) -> bool {
    forall|i: int| 0 <= i < s.len() ==> is_digit(#[trigger] s[i])
}

/// The value of a string of decimal digits.
pub open spec fn digits_val(s: Seq<u8>) -> nat
    decreases s.len(),
{
    if s.len() == 0 {
        0
    } else {
        digits_val(s.drop_last()) * 10 + (s.last() - 48) as nat
    }
}

/// The decimal digits of `m`, without leading zeros.
pub open spec fn digits_of(m: nat) -> Seq<u8>
    decreases m,
{
    if m < 10 {
        seq![(48 + m) as u8]
    } else {
        digits_of(m / 10).push((48 + m % 10) as u8)
    }
}

pub open spec fn zeros(k: nat) -> Seq<u8> {
    Seq::new(k, |i: int| 48u8)
}

/// `digits_of(m)`, with zeros in front up to at least `w` digits.
pub open spec fn padded(m: nat, w: nat) -> Seq<u8> {
    let d = digits_of(m);
    if d.len() < w {
        zeros((w - d.len()) as nat) + d
    } else {
        d
    }
}

pub open spec fn magnitude(u: int) -> nat {
    if u < 0 {
        (-u) as nat
    } else {
        u as nat
    }
}

/// The text form of a time: an optional minus sign, the integer digits, and
/// `scale` fractional digits after a point when `scale > 0`.
#[verifier::opaque]
pub open spec fn time_text(t: Time) -> Seq<u8> {
    let s = t.scale_spec();
    let p = padded(magnitude(t.units_spec()), s + 1);
    let sign: Seq<u8> = if t.units_spec() < 0 {
        seq![45u8]
    } else {
        Seq::empty()
    };
    let int_part = p.subrange(0, p.len() - s);
    let frac = p.subrange(p.len() - s, p.len() as int);
    if s > 0 {
        sign + int_part + seq![46u8] + frac
    } else {
        sign + int_part
    }
}

/// The numeral without its sign (`-` or `+`).
pub open spec fn unsigned_part(b: Seq<u8>) -> Seq<u8> {
    if b.len() > 0 && (b[0] == 45 || b[0] == 43) {
        b.drop_first()
    } else {
        b
    }
}

/// The body splits at a point into two digit runs, not both empty.
pub open spec fn split_at_point(body: Seq<u8>, k: int) -> bool {
    &&& 0 <= k < body.len()
    &&& body.len() >= 2
    &&& body[k] == 46
    &&& all_digits(body.subrange(0, k))
    &&& all_digits(body.subrange(k + 1, body.len() as int))
}

/// Digit string and scale of a decimal numeral without sign.
pub open spec fn numeral(body: Seq<u8>) -> Option<(Seq<u8>, nat)> {
    if body.len() > 0 && all_digits(body) {
        Some((body, 0))
    } else if exists|k: int| split_at_point(body, k) {
        let k = choose|k: int| split_at_point(body, k);
        Some((body.subrange(0, k) + body.subrange(k + 1, body.len() as int), (body.len() - k - 1) as nat))
    } else {
        None
    }
}

pub open spec fn is_exp_mark(c: u8) -> bool {
    c == 101 || c == 69
}

/// `k` is the first exponent mark (`e` or `E`) of `b`.
pub open spec fn exp_split(b: Seq<u8>, k: int) -> bool {
    &&& 0 <= k < b.len()
    &&& is_exp_mark(b[k])
    &&& forall|j: int| 0 <= j < k ==> !is_exp_mark(#[trigger] b[j])
}

/// An exponent: an optional sign, then at least one digit.
pub open spec fn exponent(s: Seq<u8>) -> Option<int> {
    let d = unsigned_part(s);
    if d.len() > 0 && all_digits(d) {
        Some(if s[0] == 45 { -digits_val(d) } else { digits_val(d) as int })
    } else {
        None
    }
}

/// The sign, the digit value and the number of fractional digits of a
/// mantissa: an optional sign, then digits with at most one point and at
/// least one digit.
pub open spec fn mantissa(b: Seq<u8>) -> Option<(bool, nat, nat)> {
    match numeral(unsigned_part(b)) {
        Some((d, f)) => Some((b.len() > 0 && b[0] == 45, digits_val(d), f)),
        None => None,
    }
}

pub open spec fn limit(neg: bool) -> nat {
    if neg {
        0x8000_0000_0000_0000
    } else {
        0x7fff_ffff_ffff_ffff
    }
}

/// The time `v * 10^-sc` with the given sign, when it fits: with `sc` from
/// 0 to 18 the digits are kept as written; with `sc < 0` the value is
/// scaled up to a whole number.
pub closed spec fn build(neg: bool, v: nat, sc: int) -> Option<Time> {
    if 0 <= sc <= MAX_SCALE && v <= limit(neg) {
        Some(Time { units: (if neg { -v } else { v as int }) as i64, scale: sc as u8 })
    } else if sc < 0 && v * pow10((-sc) as nat) <= limit(neg) {
        let w = v * pow10((-sc) as nat);
        Some(Time { units: (if neg { -w } else { w as int }) as i64, scale: 0 })
    } else {
        None
    }
}

/// The time a numeral denotes, in the syntax of standard floating-point
/// text: a mantissa (`-1.5`, `+2`, `.5`, `5.`) and an optional exponent
/// (`e-05`, `E3`). It is defined when the mantissa's digits, read as one
/// integer, fit the signed 64-bit range, and the exponent leaves between 0
/// and 18 fractional digits (the digits are then kept as written), or none
/// (the value is then scaled up to a whole number that must fit as well).
/// `inf` and `NaN` have no decimal value and are not read.
#[verifier::opaque]
pub closed spec fn parse_time(b: Seq<u8>) -> Option<Time> {
    if exists|k: int| exp_split(b, k) {
        let k = choose|k: int| exp_split(b, k);
        match (mantissa(b.subrange(0, k)), exponent(b.subrange(k + 1, b.len() as int))) {
            (Some((neg, v, f)), Some(e)) => build(neg, v, f - e),
            _ => None,
        }
    } else {
        match mantissa(b) {
            Some((neg, v, f)) => build(neg, v, f as int),
            None => None,
        }
    }
}

pub proof fn lemma_digits_of(m: nat)
    ensures
        digits_val(digits_of(m)) == m,
        all_digits(digits_of(m)),
        digits_of(m).len() >= 1,
        digits_of(m)[0] != 45,
    decreases m,
{
    if m >= 10 {
        lemma_digits_of(m / 10);
        let d = digits_of(m / 10);
        assert(digits_of(m).drop_last() =~= d);
        assert(digits_of(m)[0] == d[0]);
        assert(m == (m / 10) * 10 + m % 10) by (nonlinear_arith);
        let c = (48 + m % 10) as u8;
        assert(c as int == 48 + m % 10);
        assert(digits_of(m).last() == c);
        assert(digits_val(digits_of(m)) == digits_val(d) * 10 + (c - 48) as nat);
    } else {
        assert(digits_of(m).drop_last() =~= Seq::<u8>::empty());
        let c = (48 + m) as u8;
        assert(c as int == 48 + m);
        assert(digits_of(m).last() == c);
        assert(digits_val(digits_of(m)) == digits_val(Seq::<u8>::empty()) * 10 + (c - 48) as nat);
    }
}

pub proof fn lemma_zeros_prefix(k: nat, d: Seq<u8>)
    ensures
        digits_val(zeros(k) + d) == digits_val(d),
    decreases d.len(),
{
    if d.len() == 0 {
        assert(zeros(k) + d =~= zeros(k));
        lemma_zeros_val(k);
    } else {
        assert((zeros(k) + d).drop_last() =~= zeros(k) + d.drop_last());
        lemma_zeros_prefix(k, d.drop_last());
    }
}

pub proof fn lemma_zeros_val(k: nat)
    ensures
        digits_val(zeros(k)) == 0,
    decreases k,
{
    if k > 0 {
        assert(zeros(k).drop_last() =~= zeros((k - 1) as nat));
        lemma_zeros_val((k - 1) as nat);
    }
}

pub proof fn lemma_padded(m: nat, w: nat)
    ensures
        digits_val(padded(m, w)) == m,
        all_digits(padded(m, w)),
        padded(m, w).len() >= w,
        padded(m, w).len() >= 1,
        padded(m, w)[0] != 45,
{
    lemma_digits_of(m);
    let d = digits_of(m);
    if d.len() < w {
        lemma_zeros_prefix((w - d.len()) as nat, d);
        let p = zeros((w - d.len()) as nat) + d;
        assert forall|i: int| 0 <= i < p.len() implies is_digit(#[trigger] p[i]) by {
            if i >= w - d.len() {
                assert(p[i] == d[i - (w - d.len())]);
            }
        }
    }
}

pub proof fn lemma_split_unique(body: Seq<u8>, k: int)
    requires
        split_at_point(body, k),
    ensures
        (choose|j: int| split_at_point(body, j)) == k,
        !all_digits(body),
{
    let j = choose|j: int| split_at_point(body, j);
    assert(split_at_point(body, j));
    if j < k {
        assert(body.subrange(0, k)[j] == body[j]);
    }
    if k < j {
        assert(body.subrange(0, j)[k] == body[k]);
    }
}

/// Reading the text form of a time gives the time back.
pub proof fn lemma_time_text_round_trip(t: Time)
    requires
        t.scale_spec() <= MAX_SCALE,
    ensures
        parse_time(time_text(t)) == Some(t),
{
    lemma_time_text_shape(t);
    reveal(parse_time);
    reveal(time_text);
    let s = t.scale_spec();
    let m = magnitude(t.units_spec());
    let p = padded(m, s + 1);
    lemma_padded(m, s + 1);
    let int_part = p.subrange(0, p.len() - s);
    let frac = p.subrange(p.len() - s, p.len() as int);
    let text = time_text(t);
    if exists|k: int| exp_split(text, k) {
        let k = choose|k: int| exp_split(text, k);
        assert(is_digit(text[k]) || text[k] == 45 || text[k] == 46);
    }
    let body: Seq<u8> = if s > 0 {
        int_part + seq![46u8] + frac
    } else {
        int_part
    };
    assert(int_part[0] == p[0]);
    if t.units_spec() < 0 {
        assert(text =~= seq![45u8] + body);
        assert(unsigned_part(text) =~= body);
    } else {
        assert(text =~= body);
        assert(body[0] == int_part[0]);
        assert(unsigned_part(text) =~= body);
    }
    assert(int_part + frac =~= p);
    if s > 0 {
        let k = int_part.len() as int;
        assert(body.subrange(0, k) =~= int_part);
        assert(body.subrange(k + 1, body.len() as int) =~= frac);
        assert(all_digits(int_part));
        assert(all_digits(frac));
        assert(split_at_point(body, k));
        lemma_split_unique(body, k);
        assert(numeral(body) == Some((p, s)));
    } else {
        assert(int_part =~= p);
        assert(numeral(body) == Some((p, 0nat)));
    }
    assert(mantissa(text) == Some((t.units_spec() < 0, m, s)));
}

/// Appends the decimal digits of `m`.
pub fn push_digits(m: u64, out: &mut Vec<u8>)
    ensures
        final(out)@ == old(out)@ + digits_of(m as nat),
    decreases m,
{
    if m >= 10 {
        push_digits(m / 10, out);
    }
    let c = (48 + m % 10) as u8;
    out.push(c);
    proof {
        if m >= 10 {
            assert(digits_of(m as nat) == digits_of((m / 10) as nat).push(c));
        } else {
            assert(digits_of(m as nat) == seq![c]);
        }
    }
    assert(out@ =~= old(out)@ + digits_of(m as nat));
}

/// Appends `src[from..to]`.
pub fn push_range(out: &mut Vec<u8>, src: &Vec<u8>, from: usize, to: usize)
    requires
        from <= to <= src.len(),
    ensures
        final(out)@ == old(out)@ + src@.subrange(from as int, to as int),
{
    let mut i = from;
    while i < to
        invariant
            from <= i <= to,
            to <= src.len(),
            out@ == old(out)@ + src@.subrange(from as int, i as int),
        decreases to - i,
    {
        out.push(src[i]);
        i = i + 1;
        assert(out@ =~= old(out)@ + src@.subrange(from as int, i as int));
    }
}

/// The digits of `m`, zero-padded in front to at least `w` digits.
pub fn padded_digits(m: u64, w: usize) -> (p: Vec<u8>)
    ensures
        p@ == padded(m as nat, w as nat),
{
    let mut d: Vec<u8> = Vec::new();
    push_digits(m, &mut d);
    assert(d@ =~= digits_of(m as nat));
    let mut p: Vec<u8> = Vec::new();
    if d.len() < w {
        let k = w - d.len();
        let mut i: usize = 0;
        while i < k
            invariant
                i <= k,
                p@ == zeros(i as nat),
            decreases k - i,
        {
            p.push(48u8);
            i = i + 1;
            assert(p@ =~= zeros(i as nat));
        }
    }
    let dl = d.len();
    push_range(&mut p, &d, 0, dl);
    assert(d@.subrange(0, dl as int) =~= d@);
    assert(p@ =~= padded(m as nat, w as nat));
    p
}

impl Time {
    /// Appends the text form of this time.
    pub fn write_text(&self, out: &mut Vec<u8>)
        ensures
            final(out)@ == old(out)@ + time_text(*self),
            parse_time(time_text(*self)) == Some(*self),
    {
        proof {
            use_type_invariant(self);
            lemma_time_text_round_trip(*self);
        }
        let m: u64 = if self.units < 0 {
            ((-(self.units + 1)) as u64) + 1
        } else {
            self.units as u64
        };
        assert(m as nat == magnitude(self.units as int));
        let s = self.scale as usize;
        let p = padded_digits(m, s + 1);
        proof {
            lemma_padded(m as nat, (s + 1) as nat);
        }
        let ghost o0 = out@;
        if self.units < 0 {
            out.push(45u8);
        }
        let ghost o1 = out@;
        let pl = p.len();
        push_range(out, &p, 0, pl - s);
        if s > 0 {
            out.push(46u8);
            push_range(out, &p, pl - s, pl);
        }
        proof {
            reveal(time_text);
            let sign: Seq<u8> = if self.units < 0 {
                seq![45u8]
            } else {
                Seq::empty()
            };
            assert(o1 =~= o0 + sign);
            let ip = p@.subrange(0, pl - s);
            let fr = p@.subrange(pl - s, pl as int);
            if s > 0 {
                assert(out@ =~= o0 + (sign + ip + seq![46u8] + fr));
            } else {
                assert(out@ =~= o0 + (sign + ip));
            }
        }
    }
}

pub proof fn lemma_digits_val_mono(x: Seq<u8>, y: Seq<u8>)
    requires
        all_digits(y),
    ensures
        digits_val(x + y) >= digits_val(x),
    decreases y.len(),
{
    if y.len() == 0 {
        assert(x + y =~= x);
    } else {
        assert((x + y).drop_last() =~= x + y.drop_last());
        assert(all_digits(y.drop_last())) by {
            assert forall|i: int| 0 <= i < y.drop_last().len() implies is_digit(#[trigger] y.drop_last()[i]) by {
                assert(y.drop_last()[i] == y[i]);
            }
        }
        lemma_digits_val_mono(x, y.drop_last());
        assert((x + y).last() == y.last());
        assert(is_digit(y[y.len() - 1]));
    }
}

/// `digits_val(pre + b[from..to])` when it is at most `limit`.
fn accumulate(b: &[u8], from: usize, to: usize, v0: u64, limit: u64, Ghost(pre): Ghost<Seq<u8>>) -> (r: Option<u64>)
    requires
        from <= to <= b.len(),
        all_digits(b@.subrange(from as int, to as int)),
        digits_val(pre) == v0,
        v0 <= limit,
    ensures
        r == (if digits_val(pre + b@.subrange(from as int, to as int)) <= limit {
            Some(digits_val(pre + b@.subrange(from as int, to as int)) as u64)
        } else {
            None
        }),
{
    let mut v = v0;
    let mut i = from;
    while i < to
        invariant
            from <= i <= to <= b.len(),
            all_digits(b@.subrange(from as int, to as int)),
            v as nat == digits_val(pre + b@.subrange(from as int, i as int)),
            v <= limit,
        decreases to - i,
    {
        let ghost cur = pre + b@.subrange(from as int, i as int);
        let ghost nxt = pre + b@.subrange(from as int, i + 1);
        assert(nxt.drop_last() =~= cur);
        assert(b@.subrange(from as int, to as int)[i - from] == b@[i as int]);
        let c = b[i];
        let nv: u128 = (v as u128) * 10 + ((c - 48u8) as u128);
        assert(nv == digits_val(nxt));
        if nv > limit as u128 {
            proof {
                let rest = b@.subrange(i + 1, to as int);
                assert(all_digits(rest)) by {
                    assert forall|j: int| 0 <= j < rest.len() implies is_digit(#[trigger] rest[j]) by {
                        assert(rest[j] == b@.subrange(from as int, to as int)[i + 1 + j - from]);
                    }
                }
                lemma_digits_val_mono(nxt, rest);
                assert(nxt + rest =~= pre + b@.subrange(from as int, to as int));
            }
            return None;
        }
        v = nv as u64;
        i = i + 1;
    }
    Some(v)
}

pub open spec fn digits_except(body: Seq<u8>, kk: int) -> bool {
    forall|j: int| 0 <= j < body.len() && j != kk ==> is_digit(#[trigger] body[j])
}

pub open spec fn without_point(body: Seq<u8>, kk: int) -> Seq<u8> {
    if kk < body.len() {
        body.subrange(0, kk) + body.subrange(kk + 1, body.len() as int)
    } else {
        body
    }
}

/// Where the first point of a numeral body may stand: anywhere when the
/// body has at least two bytes, or nowhere in a non-empty body.
pub open spec fn shape_ok(body: Seq<u8>, kk: int) -> bool {
    (kk == body.len() && kk > 0) || (kk < body.len() && body.len() >= 2)
}

/// With `kk` the first point of `body` (or its length), the numeral exists
/// exactly when the rest of the body is digits and at least one digit is there.
pub proof fn lemma_numeral_shape(body: Seq<u8>, kk: int)
    requires
        0 <= kk <= body.len(),
        forall|j: int| 0 <= j < kk ==> body[j] != 46,
        kk < body.len() ==> body[kk] == 46,
    ensures
        numeral(body) is Some <==> (shape_ok(body, kk) && digits_except(body, kk)),
        numeral(body) is Some ==> numeral(body) == Some(
            (without_point(body, kk), (if kk < body.len() { body.len() - kk - 1 } else { 0 }) as nat),
        ),
{
    let n = body.len() as int;
    if kk < n {
        assert(!is_digit(body[kk]));
        assert(!all_digits(body));
        if n >= 2 && digits_except(body, kk) {
            assert(all_digits(body.subrange(0, kk))) by {
                assert forall|j: int| 0 <= j < kk implies is_digit(#[trigger] body.subrange(0, kk)[j]) by {
                    assert(body.subrange(0, kk)[j] == body[j]);
                }
            }
            assert(all_digits(body.subrange(kk + 1, n))) by {
                assert forall|j: int| 0 <= j < n - kk - 1 implies is_digit(
                    #[trigger] body.subrange(kk + 1, n)[j],
                ) by {
                    assert(body.subrange(kk + 1, n)[j] == body[kk + 1 + j]);
                }
            }
            assert(split_at_point(body, kk));
            lemma_split_unique(body, kk);
        } else if exists|q: int| split_at_point(body, q) {
            let q = choose|q: int| split_at_point(body, q);
            if q > kk {
                assert(body.subrange(0, q)[kk] == body[kk]);
            }
            assert(q == kk);
            assert forall|j: int| 0 <= j < n && j != kk implies is_digit(#[trigger] body[j]) by {
                if j < kk {
                    assert(body.subrange(0, q)[j] == body[j]);
                } else {
                    assert(body.subrange(q + 1, n)[j - kk - 1] == body[j]);
                }
            }
        }
    } else {
        if exists|q: int| split_at_point(body, q) {
            let q = choose|q: int| split_at_point(body, q);
            assert(body[q] == 46);
        }
        if kk > 0 && digits_except(body, kk) {
            assert(all_digits(body));
        }
        if all_digits(body) {
            assert(digits_except(body, kk));
        }
    }
}

/// Reads a mantissa; `None` also when its value exceeds the limit of its sign.
fn parse_mantissa(b: &[u8]) -> (r: Option<(bool, u64, usize)>)
    ensures
        r matches Some((neg, v, f)) ==> mantissa(b@) == Some((neg, v as nat, f as nat)) && v <= limit(neg),
        r is None ==> (match mantissa(b@) {
            Some((neg, v, _)) => v > limit(neg),
            None => true,
        }),
{
    let n = b.len();
    let neg = n > 0 && b[0] == 45u8;
    let start: usize = if n > 0 && (b[0] == 45u8 || b[0] == 43u8) {
        1
    } else {
        0
    };
    let ghost body = unsigned_part(b@);
    assert(body =~= b@.subrange(start as int, n as int));
    let mut k = start;
    while k < n && b[k] != 46u8
        invariant
            start <= k <= n,
            n == b.len(),
            body == b@.subrange(start as int, n as int),
            forall|j: int| 0 <= j < k - start ==> body[j] != 46,
        decreases n - k,
    {
        assert(body[k - start] == b@[k as int]);
        k = k + 1;
    }
    let ghost kk = k - start;
    proof {
        if k < n {
            assert(body[kk] == b@[k as int]);
        }
        lemma_numeral_shape(body, kk);
    }
    let mut i = start;
    let mut ok = (k == n && k > start) || (k < n && n - start >= 2);
    while i < n
        invariant
            start <= i <= n,
            start <= k <= n,
            kk == k - start,
            n == b.len(),
            body.len() == n - start,
            body == b@.subrange(start as int, n as int),
            ok ==> shape_ok(body, kk),
            ok ==> forall|j: int| 0 <= j < i - start && j != kk ==> is_digit(#[trigger] body[j]),
            !ok ==> !(shape_ok(body, kk) && digits_except(body, kk)),
        decreases n - i,
    {
        assert(body[i - start] == b@[i as int]);
        if i != k && !(48u8 <= b[i] && b[i] <= 57u8) {
            ok = false;
        }
        i = i + 1;
    }
    if !ok {
        return None;
    }
    let scale: usize = if k < n {
        n - k - 1
    } else {
        0
    };
    let ghost int_part = b@.subrange(start as int, k as int);
    let ghost frac = b@.subrange(if k < n { k + 1 } else { n as int }, n as int);
    proof {
        assert(int_part + frac =~= without_point(body, kk));
        assert(all_digits(int_part)) by {
            assert forall|j: int| 0 <= j < int_part.len() implies is_digit(#[trigger] int_part[j]) by {
                assert(int_part[j] == body[j]);
            }
        }
        assert(all_digits(frac)) by {
            assert forall|j: int| 0 <= j < frac.len() implies is_digit(#[trigger] frac[j]) by {
                assert(frac[j] == body[n - start - frac.len() + j]);
            }
        }
        assert(digits_except(body, kk));
        assert(numeral(body) == Some((int_part + frac, scale as nat)));
        assert(neg == (b@.len() > 0 && b@[0] == 45));
    }
    let lim: u64 = if neg {
        0x8000_0000_0000_0000
    } else {
        0x7fff_ffff_ffff_ffff
    };
    assert(digits_val(Seq::<u8>::empty()) == 0);
    assert(Seq::<u8>::empty() + int_part =~= int_part);
    let v1 = match accumulate(b, start, k, 0, lim, Ghost(Seq::empty())) {
        Some(v) => v,
        None => {
            proof {
                lemma_digits_val_mono(int_part, frac);
            }
            return None;
        },
    };
    let fstart: usize = if k < n {
        k + 1
    } else {
        n
    };
    let v = match accumulate(b, fstart, n, v1, lim, Ghost(int_part)) {
        Some(v) => v,
        None => {
            return None;
        },
    };
    Some((neg, v, scale))
}

/// The largest exponent magnitude held exactly; larger ones decide the same.
pub const EXP_CAP: u128 = 0x10_0000_0000_0000_0000_0000_0000;

/// Reads an exponent, its magnitude capped at `EXP_CAP`.
fn parse_exponent(s: &[u8]) -> (r: Option<(bool, u128)>)
    ensures
        r is Some <==> exponent(s@) is Some,
        r matches Some((eneg, mag)) ==> {
            let dv = digits_val(unsigned_part(s@));
            &&& eneg == (s@[0] == 45)
            &&& exponent(s@) == Some(if eneg { -dv } else { dv as int })
            &&& mag == if dv < EXP_CAP { dv } else { EXP_CAP as nat }
        },
{
    let n = s.len();
    if n == 0 {
        return None;
    }
    let eneg = s[0] == 45u8;
    let start: usize = if s[0] == 45u8 || s[0] == 43u8 {
        1
    } else {
        0
    };
    let ghost d = unsigned_part(s@);
    assert(d =~= s@.subrange(start as int, n as int));
    if start == n {
        return None;
    }
    let mut mag: u128 = 0;
    let mut i = start;
    assert(s@.subrange(start as int, start as int) =~= Seq::<u8>::empty());
    while i < n
        invariant
            start <= i <= n,
            n == s.len(),
            d == s@.subrange(start as int, n as int),
            d == unsigned_part(s@),
            all_digits(s@.subrange(start as int, i as int)),
            mag == if digits_val(s@.subrange(start as int, i as int)) < EXP_CAP {
                digits_val(s@.subrange(start as int, i as int))
            } else {
                EXP_CAP as nat
            },
        decreases n - i,
    {
        let c = s[i];
        if !(48u8 <= c && c <= 57u8) {
            assert(d[i - start] == c);
            assert(!is_digit(d[i - start]));
            assert(!all_digits(d));
            return None;
        }
        let ghost pre = s@.subrange(start as int, i as int);
        let ghost nxt = s@.subrange(start as int, i + 1);
        assert(nxt.drop_last() =~= pre);
        let m2 = mag * 10 + (c - 48u8) as u128;
        mag = if m2 < EXP_CAP {
            m2
        } else {
            EXP_CAP
        };
        i = i + 1;
        assert(all_digits(nxt)) by {
            assert forall|j: int| 0 <= j < nxt.len() implies is_digit(#[trigger] nxt[j]) by {
                if j < pre.len() {
                    assert(nxt[j] == pre[j]);
                }
            }
        }
    }
    assert(s@.subrange(start as int, n as int) == d);
    Some((eneg, mag))
}

pub proof fn lemma_big_scale(v: nat, k: nat)
    requires
        v >= 1,
        k >= 19,
    ensures
        v * pow10(k) > 0x8000_0000_0000_0000,
{
    lemma_pow10_mono(19, k);
    reveal_with_fuel(pow10, 20);
    let p = pow10(k);
    assert(v * p >= p) by (nonlinear_arith)
        requires
            v >= 1,
            p >= 0,
    ;
}

impl Time {
    /// Reads a number such as `-12.50`, `.5` or `1e-05` (see `parse_time`).
    pub fn parse(b: &[u8]) -> (r: Option<Time>)
        ensures
            r == parse_time(b@),
    {
        reveal(parse_time);
        let n = b.len();
        let mut k: usize = 0;
        while k < n && !(b[k] == 101u8 || b[k] == 69u8)
            invariant
                k <= n,
                n == b.len(),
                forall|j: int| 0 <= j < k ==> !is_exp_mark(#[trigger] b@[j]),
            decreases n - k,
        {
            k = k + 1;
        }
        proof {
            if k < n {
                assert(exp_split(b@, k as int));
                let c = choose|q: int| exp_split(b@, q);
                if c < k {
                    assert(!is_exp_mark(b@[c]));
                }
                if k < c {
                    assert(!is_exp_mark(b@[k as int]));
                }
            } else {
                if exists|q: int| exp_split(b@, q) {
                    let q = choose|q: int| exp_split(b@, q);
                    assert(!is_exp_mark(b@[q]));
                }
                assert(b@.subrange(0, n as int) =~= b@);
            }
        }
        let mant = vstd::slice::slice_subrange(b, 0, k);
        let ghost m = mant@;
        let (eneg, mag) = if k < n {
            match parse_exponent(vstd::slice::slice_subrange(b, k + 1, n)) {
                Some(x) => x,
                None => {
                    return None;
                },
            }
        } else {
            (false, 0u128)
        };
        let ghost e: int = if k < n {
            exponent(b@.subrange(k + 1, n as int))->0
        } else {
            0
        };
        let (neg, v, f) = match parse_mantissa(mant) {
            Some(x) => x,
            None => {
                proof {
                    if let Some((ng, vv, ff)) = mantissa(m) {
                        let sc = ff - e;
                        if sc < 0 {
                            lemma_pow10_positive((-sc) as nat);
                            let p = pow10((-sc) as nat);
                            assert(vv * p >= vv) by (nonlinear_arith)
                                requires
                                    p >= 1,
                            ;
                        }
                    }
                }
                return None;
            },
        };
        let ghost dv: nat = if k < n {
            digits_val(unsigned_part(b@.subrange(k + 1, n as int)))
        } else {
            0
        };
        let sc: i128 = if eneg {
            f as i128 + mag as i128
        } else {
            f as i128 - mag as i128
        };
        let neg_units = |w: u64| -> (u: i64)
            requires
                w <= 0x8000_0000_0000_0000,
            ensures
                u == -(w as int),
            {
                if w == 0x8000_0000_0000_0000u64 {
                    i64::MIN
                } else {
                    -(w as i64)
                }
            };
        if 0 <= sc && sc <= MAX_SCALE as i128 {
            proof {
                if mag == EXP_CAP {
                    assert(dv >= EXP_CAP);
                }
            }
            let units: i64 = if neg {
                neg_units(v)
            } else {
                v as i64
            };
            return Some(Time { units, scale: sc as u8 });
        }
        if sc > 0 {
            return None;
        }
        if v == 0 {
            proof {
                assert(0 * pow10((f - e) as nat) == 0) by (nonlinear_arith);
                assert(0 * pow10((-(f - e)) as nat) == 0) by (nonlinear_arith);
            }
            return Some(Time { units: 0, scale: 0 });
        }
        let up: i128 = -sc;
        if up > MAX_SCALE as i128 {
            proof {
                lemma_big_scale(v as nat, (e - f) as nat);
            }
            return None;
        }
        let mut p: u128 = 1;
        let mut j: i128 = 0;
        while j < up
            invariant
                0 <= j <= up <= MAX_SCALE,
                p == pow10(j as nat),
            decreases up - j,
        {
            proof {
                lemma_pow10_le_1e18((j + 1) as nat);
            }
            p = p * 10;
            j = j + 1;
        }
        proof {
            lemma_pow10_le_1e18(up as nat);
            assert(v as int * p <= 0x8000_0000_0000_0000 * 1_000_000_000_000_000_000) by (nonlinear_arith)
                requires
                    v <= 0x8000_0000_0000_0000,
                    p <= 1_000_000_000_000_000_000,
            ;
        }
        let w: u128 = v as u128 * p;
        let lim: u128 = if neg {
            0x8000_0000_0000_0000
        } else {
            0x7fff_ffff_ffff_ffff
        };
        if w > lim {
            return None;
        }
        let units: i64 = if neg {
            neg_units(w as u64)
        } else {
            w as i64
        };
        Some(Time { units, scale: 0 })
    }
}

/// The text form of a time is non-empty, made of digits, `-` and `.`,
/// starts with a digit or `-` and ends with a digit.
pub proof fn lemma_time_text_shape(t: Time)
    ensures
        time_text(t).len() > 0,
        forall|i: int|
            0 <= i < time_text(t).len() ==> is_digit(#[trigger] time_text(t)[i]) || time_text(t)[i] == 45
                || time_text(t)[i] == 46,
        is_digit(time_text(t)[0]) || time_text(t)[0] == 45,
        is_digit(time_text(t).last()),
{
    reveal(time_text);
    let s = t.scale_spec();
    let m = magnitude(t.units_spec());
    let p = padded(m, s + 1);
    lemma_padded(m, s + 1);
    let int_part = p.subrange(0, p.len() - s);
    let frac = p.subrange(p.len() - s, p.len() as int);
    let sign: Seq<u8> = if t.units_spec() < 0 {
        seq![45u8]
    } else {
        Seq::empty()
    };
    let x = time_text(t);
    assert(is_digit(int_part[0])) by {
        assert(int_part[0] == p[0]);
    }
    if s > 0 {
        assert(x == sign + int_part + seq![46u8] + frac);
        assert(x.last() == frac.last());
        assert(frac.last() == p[p.len() - 1]);
        assert forall|i: int| 0 <= i < x.len() implies is_digit(#[trigger] x[i]) || x[i] == 45 || x[i] == 46 by {
            if i < sign.len() {
            } else if i < sign.len() + int_part.len() {
                assert(x[i] == int_part[i - sign.len()]);
                assert(int_part[i - sign.len()] == p[i - sign.len()]);
            } else if i == sign.len() + int_part.len() {
            } else {
                assert(x[i] == frac[i - sign.len() - int_part.len() - 1]);
                assert(frac[i - sign.len() - int_part.len() - 1] == p[p.len() - s + i - sign.len() - int_part.len() - 1]);
            }
        }
        if t.units_spec() >= 0 {
            assert(x[0] == int_part[0]);
        }
    } else {
        assert(x == sign + int_part);
        assert(x.last() == int_part.last());
        assert(int_part.last() == p[p.len() - 1]);
        assert forall|i: int| 0 <= i < x.len() implies is_digit(#[trigger] x[i]) || x[i] == 45 || x[i] == 46 by {
            if i >= sign.len() {
                assert(x[i] == int_part[i - sign.len()]);
                assert(int_part[i - sign.len()] == p[i - sign.len()]);
            }
        }
        if t.units_spec() >= 0 {
            assert(x[0] == int_part[0]);
        }
    }
}

} // verus!
