//! The little-endian binary format.
//!
//! Times are stored as IEEE-754 doubles. This module reads and writes the
//! layout with each time held as the 64-bit pattern of its double; turning
//! those patterns into decimal times is left to the caller.
use vstd::prelude::*;

use crate::model::{TextGridError, TierType, err_msg, string_from_utf8};
use crate::words::{
    interval_tier, interval_tier_bytes, oo_binary_file, oo_binary_file_bytes, text_grid,
    text_grid_bytes, text_tier, text_tier_bytes,
};

verus! {

/// An interval of the binary layout: the two time patterns and the text.
pub struct BinaryInterval {
    pub xmin: u64,
    pub xmax: u64,
    pub text: String,
}

/// A point of the binary layout.
pub struct BinaryPoint {
    pub time: u64,
    pub mark: String,
}

/// A tier of the binary layout.
pub struct BinaryTier {
    pub name: String,
    pub tier_type: TierType,
    pub xmin: u64,
    pub xmax: u64,
    pub intervals: Vec<BinaryInterval>,
    pub points: Vec<BinaryPoint>,
}

/// A document of the binary layout.
pub struct BinaryGrid {
    pub xmin: u64,
    pub xmax: u64,
    pub tiers: Vec<BinaryTier>,
}

pub struct BinTierV {
    pub name: Seq<char>,
    pub tier_type: TierType,
    pub xmin: u64,
    pub xmax: u64,
    pub intervals: Seq<(u64, u64, Seq<char>)>,
    pub points: Seq<(u64, Seq<char>)>,
}

pub struct BinDocV {
    pub xmin: u64,
    pub xmax: u64,
    pub tiers: Seq<BinTierV>,
}

pub open spec fn bin_intervals_view(v: Seq<BinaryInterval>) -> Seq<(u64, u64, Seq<char>)> {
    v.map_values(|i: BinaryInterval| (i.xmin, i.xmax, i.text@))
}

pub open spec fn bin_points_view(v: Seq<BinaryPoint>) -> Seq<(u64, Seq<char>)> {
    v.map_values(|p: BinaryPoint| (p.time, p.mark@))
}

impl View for BinaryTier {
    type V = BinTierV;

    open spec fn view(&self) -> BinTierV {
        BinTierV {
            name: self.name@,
            tier_type: self.tier_type,
            xmin: self.xmin,
            xmax: self.xmax,
            intervals: bin_intervals_view(self.intervals@),
            points: bin_points_view(self.points@),
        }
    }
}

pub open spec fn bin_tiers_view(v: Seq<BinaryTier>) -> Seq<BinTierV> {
    v.map_values(|t: BinaryTier| t@)
}

impl View for BinaryGrid {
    type V = BinDocV;

    open spec fn view(&self) -> BinDocV {
        BinDocV { xmin: self.xmin, xmax: self.xmax, tiers: bin_tiers_view(self.tiers@) }
    }
}

/// `n` as `k` little-endian bytes (the low `k` bytes of `n`).
pub open spec fn le_bytes(n: nat, k: nat) -> Seq<u8>
    decreases k,
{
    if k == 0 {
        Seq::empty()
    } else {
        seq![(n % 256) as u8] + le_bytes(n / 256, (k - 1) as nat)
    }
}

/// The number that little-endian bytes stand for.
pub open spec fn le_val(s: Seq<u8>) -> nat
    decreases s.len(),
{
    if s.len() == 0 {
        0
    } else {
        s[0] as nat + 256 * le_val(s.drop_first())
    }
}

pub open spec fn utf8(s: Seq<char>) -> Seq<u8> {
    vstd::utf8::encode_utf8(s)
}

/// A string with its 16-bit length in front.
pub open spec fn str_bytes(s: Seq<u8>) -> Seq<u8> {
    le_bytes(s.len(), 2) + s
}

pub open spec fn class_word(kind: TierType) -> Seq<u8> {
    if kind == TierType::IntervalTier {
        interval_tier()
    } else {
        text_tier()
    }
}

pub open spec fn bin_interval(i: (u64, u64, Seq<char>)) -> Seq<u8> {
    le_bytes(i.0 as nat, 8) + le_bytes(i.1 as nat, 8) + str_bytes(utf8(i.2))
}

pub open spec fn bin_point(p: (u64, Seq<char>)) -> Seq<u8> {
    le_bytes(p.0 as nat, 8) + str_bytes(utf8(p.1))
}

pub open spec fn bin_intervals(s: Seq<(u64, u64, Seq<char>)>) -> Seq<u8>
    decreases s.len(),
{
    if s.len() == 0 {
        Seq::empty()
    } else {
        bin_intervals(s.drop_last()) + bin_interval(s.last())
    }
}

pub open spec fn bin_points(s: Seq<(u64, Seq<char>)>) -> Seq<u8>
    decreases s.len(),
{
    if s.len() == 0 {
        Seq::empty()
    } else {
        bin_points(s.drop_last()) + bin_point(s.last())
    }
}

pub open spec fn bin_tier(t: BinTierV) -> Seq<u8> {
    str_bytes(class_word(t.tier_type)) + str_bytes(utf8(t.name)) + le_bytes(t.xmin as nat, 8) + le_bytes(
        t.xmax as nat,
        8,
    ) + if t.tier_type == TierType::IntervalTier {
        le_bytes(t.intervals.len(), 4) + bin_intervals(t.intervals)
    } else {
        le_bytes(t.points.len(), 4) + bin_points(t.points)
    }
}

pub open spec fn bin_tiers(s: Seq<BinTierV>) -> Seq<u8>
    decreases s.len(),
{
    if s.len() == 0 {
        Seq::empty()
    } else {
        bin_tiers(s.drop_last()) + bin_tier(s.last())
    }
}

/// The bytes of a document in the binary format.
pub open spec fn bin_doc(d: BinDocV) -> Seq<u8> {
    oo_binary_file() + str_bytes(text_grid()) + le_bytes(d.xmin as nat, 8) + le_bytes(d.xmax as nat, 8)
        + le_bytes(d.tiers.len(), 4) + bin_tiers(d.tiers)
}

/// Every string fits a 16-bit length and every count a 32-bit one.
pub open spec fn encodable(d: BinDocV) -> bool {
    &&& d.tiers.len() <= 0xffff_ffff
    &&& forall|k: int| 0 <= k < d.tiers.len() ==> tier_encodable(#[trigger] d.tiers[k])
}

pub open spec fn tier_encodable(t: BinTierV) -> bool {
    &&& utf8(t.name).len() <= 0xffff
    &&& t.tier_type == TierType::IntervalTier ==> {
        &&& t.intervals.len() <= 0xffff_ffff
        &&& forall|i: int| 0 <= i < t.intervals.len() ==> utf8((#[trigger] t.intervals[i]).2).len() <= 0xffff
    }
    &&& t.tier_type == TierType::PointTier ==> {
        &&& t.points.len() <= 0xffff_ffff
        &&& forall|i: int| 0 <= i < t.points.len() ==> utf8((#[trigger] t.points[i]).1).len() <= 0xffff
    }
}

/// Appends the low `k` bytes of `n`, least significant first.
fn push_le(out: &mut Vec<u8>, n: u64, k: usize)
    requires
        k <= 8,
    ensures
        final(out)@ == old(out)@ + le_bytes(n as nat, k as nat),
{
    let mut v = n;
    let mut i: usize = 0;
    while i < k
        invariant
            i <= k <= 8,
            out@ + le_bytes(v as nat, (k - i) as nat) == old(out)@ + le_bytes(n as nat, k as nat),
        decreases k - i,
    {
        let ghost o0 = out@;
        let c = (v % 256) as u8;
        assert(le_bytes(v as nat, (k - i) as nat) == seq![c] + le_bytes((v / 256) as nat, (k - i - 1) as nat));
        out.push(c);
        assert(o0 + le_bytes(v as nat, (k - i) as nat) =~= out@ + le_bytes((v / 256) as nat, (k - i - 1) as nat));
        v = v / 256;
        i = i + 1;
    }
    assert(le_bytes(v as nat, 0) =~= Seq::<u8>::empty());
    assert(out@ + Seq::<u8>::empty() =~= out@);
}

fn push_all(out: &mut Vec<u8>, src: &[u8])
    ensures
        final(out)@ == old(out)@ + src@,
{
    let mut i: usize = 0;
    while i < src.len()
        invariant
            i <= src.len(),
            out@ == old(out)@ + src@.subrange(0, i as int),
        decreases src.len() - i,
    {
        out.push(src[i]);
        i = i + 1;
        assert(out@ =~= old(out)@ + src@.subrange(0, i as int));
    }
    assert(src@.subrange(0, src.len() as int) =~= src@);
}

/// Appends a string with its 16-bit length; `false` when it is too long.
fn push_str(out: &mut Vec<u8>, s: &[u8]) -> (ok: bool)
    ensures
        ok == (s@.len() <= 0xffff),
        ok ==> final(out)@ == old(out)@ + str_bytes(s@),
{
    if s.len() > 0xffff {
        return false;
    }
    push_le(out, s.len() as u64, 2);
    push_all(out, s);
    assert(out@ =~= old(out)@ + str_bytes(s@));
    true
}

fn too_long() -> (r: TextGridError)
    ensures
        r matches TextGridError::InvalidRange(_),
{
    TextGridError::InvalidRange(err_msg("a string or a count does not fit the binary format"))
}

fn write_tier(out: &mut Vec<u8>, t: &BinaryTier) -> (r: Result<(), TextGridError>)
    ensures
        r is Ok <==> tier_encodable(t@),
        r is Ok ==> final(out)@ == old(out)@ + bin_tier(t@),
        r is Err ==> r matches Err(TextGridError::InvalidRange(_)),
{
    let ghost o0 = out@;
    let word = match t.tier_type {
        TierType::IntervalTier => interval_tier_bytes(),
        TierType::PointTier => text_tier_bytes(),
    };
    let ok = push_str(out, word.as_slice());
    assert(ok);
    if !push_str(out, t.name.as_str().as_bytes()) {
        return Err(too_long());
    }
    push_le(out, t.xmin, 8);
    push_le(out, t.xmax, 8);
    let ghost o1 = out@;
    assert(o1 =~= o0 + str_bytes(class_word(t.tier_type)) + str_bytes(utf8(t.name@)) + le_bytes(t.xmin as nat, 8)
        + le_bytes(t.xmax as nat, 8));
    match t.tier_type {
        TierType::IntervalTier => {
            if t.intervals.len() > 0xffff_ffff {
                return Err(too_long());
            }
            push_le(out, t.intervals.len() as u64, 4);
            let ghost o2 = out@;
            let ghost sv = bin_intervals_view(t.intervals@);
            let mut i: usize = 0;
            assert(sv.subrange(0, 0) =~= Seq::<(u64, u64, Seq<char>)>::empty());
            assert(out@ =~= o2 + bin_intervals(sv.subrange(0, 0)));
            while i < t.intervals.len()
                invariant
                    i <= t.intervals.len(),
                    t.tier_type == TierType::IntervalTier,
                    sv == bin_intervals_view(t.intervals@),
                    out@ == o2 + bin_intervals(sv.subrange(0, i as int)),
                    forall|j: int| 0 <= j < i ==> utf8((#[trigger] sv[j]).2).len() <= 0xffff,
                decreases t.intervals.len() - i,
            {
                let iv = &t.intervals[i];
                let ghost oo = out@;
                push_le(out, iv.xmin, 8);
                push_le(out, iv.xmax, 8);
                let tb = iv.text.as_str().as_bytes();
                assert(tb@ == utf8(iv.text@));
                if !push_str(out, tb) {
                    assert(sv[i as int].2 == iv.text@);
                    assert(t@.intervals[i as int] == sv[i as int]);
                    assert(!tier_encodable(t@));
                    return Err(too_long());
                }
                proof {
                    let sub = sv.subrange(0, i + 1);
                    assert(sub.drop_last() =~= sv.subrange(0, i as int));
                    assert(sub.last() == sv[i as int]);
                    assert(out@ =~= oo + bin_interval(sv[i as int]));
                }
                i = i + 1;
            }
            assert(sv.subrange(0, i as int) =~= sv);
        },
        TierType::PointTier => {
            if t.points.len() > 0xffff_ffff {
                return Err(too_long());
            }
            push_le(out, t.points.len() as u64, 4);
            let ghost o2 = out@;
            let ghost sv = bin_points_view(t.points@);
            let mut i: usize = 0;
            assert(sv.subrange(0, 0) =~= Seq::<(u64, Seq<char>)>::empty());
            assert(out@ =~= o2 + bin_points(sv.subrange(0, 0)));
            while i < t.points.len()
                invariant
                    i <= t.points.len(),
                    t.tier_type == TierType::PointTier,
                    sv == bin_points_view(t.points@),
                    out@ == o2 + bin_points(sv.subrange(0, i as int)),
                    forall|j: int| 0 <= j < i ==> utf8((#[trigger] sv[j]).1).len() <= 0xffff,
                decreases t.points.len() - i,
            {
                let pt = &t.points[i];
                let ghost oo = out@;
                push_le(out, pt.time, 8);
                let mb = pt.mark.as_str().as_bytes();
                assert(mb@ == utf8(pt.mark@));
                if !push_str(out, mb) {
                    assert(sv[i as int].1 == pt.mark@);
                    assert(t@.points[i as int] == sv[i as int]);
                    assert(!tier_encodable(t@));
                    return Err(too_long());
                }
                proof {
                    let sub = sv.subrange(0, i + 1);
                    assert(sub.drop_last() =~= sv.subrange(0, i as int));
                    assert(sub.last() == sv[i as int]);
                    assert(out@ =~= oo + bin_point(sv[i as int]));
                }
                i = i + 1;
            }
            assert(sv.subrange(0, i as int) =~= sv);
        },
    }
    assert(out@ =~= o0 + bin_tier(t@));
    Ok(())
}

/// The document in the binary format; fails when a string is longer than
/// 65535 bytes or a count exceeds the 32-bit range.
pub fn encode_binary(g: &BinaryGrid) -> (r: Result<Vec<u8>, TextGridError>)
    ensures
        r is Ok <==> encodable(g@),
        r matches Ok(b) ==> b@ == bin_doc(g@),
        r is Err ==> r matches Err(TextGridError::InvalidRange(_)),
{
    let mut out: Vec<u8> = Vec::new();
    push_all(&mut out, oo_binary_file_bytes().as_slice());
    let ok = push_str(&mut out, text_grid_bytes().as_slice());
    assert(ok);
    push_le(&mut out, g.xmin, 8);
    push_le(&mut out, g.xmax, 8);
    if g.tiers.len() > 0xffff_ffff {
        return Err(too_long());
    }
    push_le(&mut out, g.tiers.len() as u64, 4);
    let ghost o2 = out@;
    let ghost ts = g@.tiers;
    let mut k: usize = 0;
    assert(ts.subrange(0, 0) =~= Seq::<BinTierV>::empty());
    assert(out@ =~= o2 + bin_tiers(ts.subrange(0, 0)));
    while k < g.tiers.len()
        invariant
            k <= g.tiers.len(),
            ts == g@.tiers,
            out@ == o2 + bin_tiers(ts.subrange(0, k as int)),
            forall|j: int| 0 <= j < k ==> tier_encodable(#[trigger] ts[j]),
        decreases g.tiers.len() - k,
    {
        let ghost oo = out@;
        match write_tier(&mut out, &g.tiers[k]) {
            Ok(()) => {},
            Err(e) => {
                assert(ts[k as int] == g.tiers@[k as int]@);
                return Err(e);
            },
        }
        proof {
            let sub = ts.subrange(0, k + 1);
            assert(sub.drop_last() =~= ts.subrange(0, k as int));
            assert(sub.last() == g.tiers@[k as int]@);
        }
        k = k + 1;
    }
    assert(ts.subrange(0, k as int) =~= ts);
    assert(out@ =~= bin_doc(g@));
    Ok(out)
}

pub open spec fn bytes_at(b: Seq<u8>, pos: int, k: nat) -> Option<(Seq<u8>, int)> {
    if 0 <= pos && pos + k <= b.len() {
        Some((b.subrange(pos, pos + k), pos + k))
    } else {
        None
    }
}

pub open spec fn num_at(b: Seq<u8>, pos: int, k: nat) -> Option<(nat, int)> {
    match bytes_at(b, pos, k) {
        Some((s, p)) => Some((le_val(s), p)),
        None => None,
    }
}

pub open spec fn str_at(b: Seq<u8>, pos: int) -> Option<(Seq<u8>, int)> {
    match num_at(b, pos, 2) {
        Some((n, p)) => bytes_at(b, p, n),
        None => None,
    }
}

pub open spec fn text_at(b: Seq<u8>, pos: int) -> Option<(Seq<char>, int)> {
    match str_at(b, pos) {
        Some((s, p)) => if vstd::utf8::valid_utf8(s) {
            Some((vstd::utf8::decode_utf8(s), p))
        } else {
            None
        },
        None => None,
    }
}

pub open spec fn class_at(b: Seq<u8>, pos: int) -> Option<(TierType, int)> {
    match str_at(b, pos) {
        Some((s, p)) => if s == interval_tier() {
            Some((TierType::IntervalTier, p))
        } else if s == text_tier() {
            Some((TierType::PointTier, p))
        } else {
            None
        },
        None => None,
    }
}

pub open spec fn interval_at(b: Seq<u8>, pos: int) -> Option<((u64, u64, Seq<char>), int)> {
    match num_at(b, pos, 8) {
        Some((x0, p1)) => match num_at(b, p1, 8) {
            Some((x1, p2)) => match text_at(b, p2) {
                Some((t, p3)) => Some(((x0 as u64, x1 as u64, t), p3)),
                None => None,
            },
            None => None,
        },
        None => None,
    }
}

pub open spec fn point_at(b: Seq<u8>, pos: int) -> Option<((u64, Seq<char>), int)> {
    match num_at(b, pos, 8) {
        Some((x, p1)) => match text_at(b, p1) {
            Some((m, p2)) => Some(((x as u64, m), p2)),
            None => None,
        },
        None => None,
    }
}

pub open spec fn intervals_at(b: Seq<u8>, pos: int, n: nat) -> Option<(Seq<(u64, u64, Seq<char>)>, int)>
    decreases n,
{
    if n == 0 {
        Some((Seq::empty(), pos))
    } else {
        match intervals_at(b, pos, (n - 1) as nat) {
            Some((s, p)) => match interval_at(b, p) {
                Some((iv, q)) => Some((s.push(iv), q)),
                None => None,
            },
            None => None,
        }
    }
}

pub open spec fn points_at(b: Seq<u8>, pos: int, n: nat) -> Option<(Seq<(u64, Seq<char>)>, int)>
    decreases n,
{
    if n == 0 {
        Some((Seq::empty(), pos))
    } else {
        match points_at(b, pos, (n - 1) as nat) {
            Some((s, p)) => match point_at(b, p) {
                Some((pt, q)) => Some((s.push(pt), q)),
                None => None,
            },
            None => None,
        }
    }
}

pub open spec fn tier_at(b: Seq<u8>, pos: int) -> Option<(BinTierV, int)> {
    match class_at(b, pos) {
        Some((kind, p1)) => match text_at(b, p1) {
            Some((name, p2)) => match num_at(b, p2, 8) {
                Some((x0, p3)) => match num_at(b, p3, 8) {
                    Some((x1, p4)) => match num_at(b, p4, 4) {
                        Some((n, p5)) => if kind == TierType::IntervalTier {
                            match intervals_at(b, p5, n) {
                                Some((ivs, p6)) => Some(
                                    (
                                        BinTierV {
                                            name,
                                            tier_type: kind,
                                            xmin: x0 as u64,
                                            xmax: x1 as u64,
                                            intervals: ivs,
                                            points: Seq::empty(),
                                        },
                                        p6,
                                    ),
                                ),
                                None => None,
                            }
                        } else {
                            match points_at(b, p5, n) {
                                Some((pts, p6)) => Some(
                                    (
                                        BinTierV {
                                            name,
                                            tier_type: kind,
                                            xmin: x0 as u64,
                                            xmax: x1 as u64,
                                            intervals: Seq::empty(),
                                            points: pts,
                                        },
                                        p6,
                                    ),
                                ),
                                None => None,
                            }
                        },
                        None => None,
                    },
                    None => None,
                },
                None => None,
            },
            None => None,
        },
        None => None,
    }
}

pub open spec fn tiers_at(b: Seq<u8>, pos: int, n: nat) -> Option<(Seq<BinTierV>, int)>
    decreases n,
{
    if n == 0 {
        Some((Seq::empty(), pos))
    } else {
        match tiers_at(b, pos, (n - 1) as nat) {
            Some((s, p)) => match tier_at(b, p) {
                Some((t, q)) => Some((s.push(t), q)),
                None => None,
            },
            None => None,
        }
    }
}

/// The document that binary bytes hold: the magic word, the class name
/// `TextGrid`, the bounds, the tier count and the tiers. Bytes after the
/// last tier are ignored.
pub open spec fn bin_read(b: Seq<u8>) -> Option<BinDocV> {
    match bytes_at(b, 0, 12) {
        Some((magic, p1)) => if magic != oo_binary_file() {
            None
        } else {
            match str_at(b, p1) {
                Some((cls, p2)) => if cls != text_grid() {
                    None
                } else {
                    match num_at(b, p2, 8) {
                        Some((x0, p3)) => match num_at(b, p3, 8) {
                            Some((x1, p4)) => match num_at(b, p4, 4) {
                                Some((n, p5)) => match tiers_at(b, p5, n) {
                                    Some((ts, _)) => Some(BinDocV { xmin: x0 as u64, xmax: x1 as u64, tiers: ts }),
                                    None => None,
                                },
                                None => None,
                            },
                            None => None,
                        },
                        None => None,
                    }
                },
                None => None,
            }
        },
        None => None,
    }
}

pub open spec fn pow256(k: nat) -> nat
    decreases k,
{
    if k == 0 {
        1
    } else {
        256 * pow256((k - 1) as nat)
    }
}

pub proof fn lemma_le_val_bound(s: Seq<u8>)
    ensures
        le_val(s) < pow256(s.len()),
    decreases s.len(),
{
    if s.len() > 0 {
        lemma_le_val_bound(s.drop_first());
        assert(s.drop_first().len() == s.len() - 1);
    }
}

fn malformed(what: &str) -> (r: TextGridError)
    ensures
        r matches TextGridError::MalformedInput(_),
{
    TextGridError::MalformedInput(err_msg(what))
}

/// The `k`-byte little-endian number at `pos`.
fn read_num(b: &[u8], pos: usize, k: usize) -> (r: Result<(u64, usize), TextGridError>)
    requires
        k <= 8,
    ensures
        r is Ok <==> num_at(b@, pos as int, k as nat) is Some,
        r matches Ok((v, q)) ==> num_at(b@, pos as int, k as nat) == Some((v as nat, q as int)),
        r is Err ==> r matches Err(TextGridError::MalformedInput(_)),
{
    if pos > b.len() || b.len() - pos < k {
        return Err(malformed("input ends inside a number"));
    }
    let ghost s = b@.subrange(pos as int, pos + k);
    let mut v: u64 = 0;
    let mut i: usize = k;
    proof {
        reveal_with_fuel(pow256, 9);
    }
    while i > 0
        invariant
            i <= k <= 8,
            pos + k <= b.len(),
            s == b@.subrange(pos as int, pos + k),
            v as nat == le_val(s.subrange(i as int, k as int)),
            pow256((k - i) as nat) <= 0x1_0000_0000_0000_0000,
        decreases i,
    {
        proof {
            lemma_le_val_bound(s.subrange(i as int, k as int));
            assert(s.subrange(i - 1, k as int).drop_first() =~= s.subrange(i as int, k as int));
            assert(pow256((k - i + 1) as nat) == 256 * pow256((k - i) as nat));
            lemma_pow256_mono((k - i + 1) as nat, 8);
            reveal_with_fuel(pow256, 9);
        }
        let c = b[pos + i - 1];
        assert(c == s.subrange(i - 1, k as int)[0]);
        v = c as u64 + 256 * v;
        i = i - 1;
    }
    assert(s.subrange(0, k as int) =~= s);
    Ok((v, pos + k))
}

proof fn lemma_pow256_mono(a: nat, b: nat)
    requires
        a <= b,
    ensures
        pow256(a) <= pow256(b),
    decreases b,
{
    if a < b {
        lemma_pow256_mono(a, (b - 1) as nat);
    }
}

fn read_str(b: &[u8], pos: usize) -> (r: Result<(Vec<u8>, usize), TextGridError>)
    ensures
        r is Ok <==> str_at(b@, pos as int) is Some,
        r matches Ok((v, q)) ==> str_at(b@, pos as int) == Some((v@, q as int)),
        r is Err ==> r matches Err(TextGridError::MalformedInput(_)),
{
    let (n, p) = read_num(b, pos, 2)?;
    proof {
        lemma_le_val_bound(b@.subrange(pos as int, pos + 2));
        reveal_with_fuel(pow256, 3);
    }
    assert(n < 0x10000);
    if p > b.len() || (b.len() - p) < n as usize {
        return Err(malformed("input ends inside a string"));
    }
    let v = vstd::slice::slice_to_vec(vstd::slice::slice_subrange(b, p, p + n as usize));
    assert(v@ =~= b@.subrange(p as int, p + n as int));
    Ok((v, p + n as usize))
}

fn read_text(b: &[u8], pos: usize) -> (r: Result<(String, usize), TextGridError>)
    ensures
        r is Ok <==> text_at(b@, pos as int) is Some,
        r matches Ok((t, q)) ==> text_at(b@, pos as int) == Some((t@, q as int)),
        r is Err ==> r matches Err(TextGridError::MalformedInput(_)),
{
    let (v, p) = read_str(b, pos)?;
    match string_from_utf8(v) {
        Some(t) => Ok((t, p)),
        None => Err(malformed("invalid UTF-8 in a string")),
    }
}

fn same_bytes(a: &Vec<u8>, b: &Vec<u8>) -> (r: bool)
    ensures
        r == (a@ == b@),
{
    if a.len() != b.len() {
        return false;
    }
    let mut i: usize = 0;
    while i < a.len()
        invariant
            a.len() == b.len(),
            i <= a.len(),
            forall|j: int| 0 <= j < i ==> a@[j] == b@[j],
        decreases a.len() - i,
    {
        if a[i] != b[i] {
            return false;
        }
        i = i + 1;
    }
    assert(a@ =~= b@);
    true
}

fn read_interval(b: &[u8], pos: usize) -> (r: Result<(BinaryInterval, usize), TextGridError>)
    ensures
        r is Ok <==> interval_at(b@, pos as int) is Some,
        r matches Ok((iv, q)) ==> interval_at(b@, pos as int) == Some(((iv.xmin, iv.xmax, iv.text@), q as int)),
        r is Err ==> r matches Err(TextGridError::MalformedInput(_)),
{
    let (x0, p1) = read_num(b, pos, 8)?;
    let (x1, p2) = read_num(b, p1, 8)?;
    let (t, p3) = read_text(b, p2)?;
    Ok((BinaryInterval { xmin: x0, xmax: x1, text: t }, p3))
}

fn read_point(b: &[u8], pos: usize) -> (r: Result<(BinaryPoint, usize), TextGridError>)
    ensures
        r is Ok <==> point_at(b@, pos as int) is Some,
        r matches Ok((pt, q)) ==> point_at(b@, pos as int) == Some(((pt.time, pt.mark@), q as int)),
        r is Err ==> r matches Err(TextGridError::MalformedInput(_)),
{
    let (x, p1) = read_num(b, pos, 8)?;
    let (m, p2) = read_text(b, p1)?;
    Ok((BinaryPoint { time: x, mark: m }, p2))
}

proof fn lemma_intervals_stop(b: Seq<u8>, pos: int, i: nat, n: nat)
    requires
        i <= n,
        intervals_at(b, pos, i) is None,
    ensures
        intervals_at(b, pos, n) is None,
    decreases n - i,
{
    if i < n {
        lemma_intervals_stop(b, pos, i, (n - 1) as nat);
    }
}

proof fn lemma_points_stop(b: Seq<u8>, pos: int, i: nat, n: nat)
    requires
        i <= n,
        points_at(b, pos, i) is None,
    ensures
        points_at(b, pos, n) is None,
    decreases n - i,
{
    if i < n {
        lemma_points_stop(b, pos, i, (n - 1) as nat);
    }
}

proof fn lemma_tiers_stop(b: Seq<u8>, pos: int, i: nat, n: nat)
    requires
        i <= n,
        tiers_at(b, pos, i) is None,
    ensures
        tiers_at(b, pos, n) is None,
    decreases n - i,
{
    if i < n {
        lemma_tiers_stop(b, pos, i, (n - 1) as nat);
    }
}

fn read_tier(b: &[u8], pos: usize) -> (r: Result<(BinaryTier, usize), TextGridError>)
    ensures
        r is Ok <==> tier_at(b@, pos as int) is Some,
        r matches Ok((t, q)) ==> tier_at(b@, pos as int) == Some((t@, q as int)),
        r is Err ==> r matches Err(TextGridError::MalformedInput(_)),
{
    let (cls, p1) = read_str(b, pos)?;
    let kind = if same_bytes(&cls, &interval_tier_bytes()) {
        TierType::IntervalTier
    } else if same_bytes(&cls, &text_tier_bytes()) {
        TierType::PointTier
    } else {
        return Err(malformed("unknown tier class"));
    };
    let (name, p2) = read_text(b, p1)?;
    let (x0, p3) = read_num(b, p2, 8)?;
    let (x1, p4) = read_num(b, p3, 8)?;
    let (n, p5) = read_num(b, p4, 4)?;
    assert(class_at(b@, pos as int) == Some((kind, p1 as int)));
    let mut p = p5;
    let mut i: u64 = 0;
    match kind {
        TierType::IntervalTier => {
            let mut v: Vec<BinaryInterval> = Vec::new();
            assert(bin_intervals_view(v@) =~= Seq::<(u64, u64, Seq<char>)>::empty());
            while i < n
                invariant
                    i <= n,
                    class_at(b@, pos as int) == Some((kind, p1 as int)),
                    text_at(b@, p1 as int) == Some((name@, p2 as int)),
                    num_at(b@, p2 as int, 8) == Some((x0 as nat, p3 as int)),
                    num_at(b@, p3 as int, 8) == Some((x1 as nat, p4 as int)),
                    num_at(b@, p4 as int, 4) == Some((n as nat, p5 as int)),
                    kind == TierType::IntervalTier,
                    intervals_at(b@, p5 as int, i as nat) == Some((bin_intervals_view(v@), p as int)),
                decreases n - i,
            {
                match read_interval(b, p) {
                    Ok((iv, q)) => {
                        let ghost v0 = bin_intervals_view(v@);
                        let ghost e = (iv.xmin, iv.xmax, iv.text@);
                        v.push(iv);
                        assert(bin_intervals_view(v@) =~= v0.push(e));
                        p = q;
                    },
                    Err(e) => {
                        proof {
                            lemma_intervals_stop(b@, p5 as int, (i + 1) as nat, n as nat);
                        }
                        return Err(e);
                    },
                }
                i = i + 1;
            }
            let t = BinaryTier { name, tier_type: kind, xmin: x0, xmax: x1, intervals: v, points: Vec::new() };
            assert(bin_points_view(t.points@) =~= Seq::<(u64, Seq<char>)>::empty());
            Ok((t, p))
        },
        TierType::PointTier => {
            let mut v: Vec<BinaryPoint> = Vec::new();
            assert(bin_points_view(v@) =~= Seq::<(u64, Seq<char>)>::empty());
            while i < n
                invariant
                    i <= n,
                    class_at(b@, pos as int) == Some((kind, p1 as int)),
                    text_at(b@, p1 as int) == Some((name@, p2 as int)),
                    num_at(b@, p2 as int, 8) == Some((x0 as nat, p3 as int)),
                    num_at(b@, p3 as int, 8) == Some((x1 as nat, p4 as int)),
                    num_at(b@, p4 as int, 4) == Some((n as nat, p5 as int)),
                    kind == TierType::PointTier,
                    points_at(b@, p5 as int, i as nat) == Some((bin_points_view(v@), p as int)),
                decreases n - i,
            {
                match read_point(b, p) {
                    Ok((pt, q)) => {
                        let ghost v0 = bin_points_view(v@);
                        let ghost e = (pt.time, pt.mark@);
                        v.push(pt);
                        assert(bin_points_view(v@) =~= v0.push(e));
                        p = q;
                    },
                    Err(e) => {
                        proof {
                            lemma_points_stop(b@, p5 as int, (i + 1) as nat, n as nat);
                        }
                        return Err(e);
                    },
                }
                i = i + 1;
            }
            let t = BinaryTier { name, tier_type: kind, xmin: x0, xmax: x1, intervals: Vec::new(), points: v };
            assert(bin_intervals_view(t.intervals@) =~= Seq::<(u64, u64, Seq<char>)>::empty());
            Ok((t, p))
        },
    }
}

/// Reads a document in the binary format. Input that ends early, a wrong
/// magic word or class name, an unknown tier class or a string that is not
/// UTF-8 is malformed.
pub fn decode_binary(b: &[u8]) -> (r: Result<BinaryGrid, TextGridError>)
    ensures
        r is Ok <==> bin_read(b@) is Some,
        r matches Ok(g) ==> Some(g@) == bin_read(b@),
        r is Err ==> r matches Err(TextGridError::MalformedInput(_)),
{
    if b.len() < 12 {
        return Err(malformed("input too short for the magic word"));
    }
    let magic = vstd::slice::slice_to_vec(vstd::slice::slice_subrange(b, 0, 12));
    if !same_bytes(&magic, &oo_binary_file_bytes()) {
        return Err(malformed("not a binary TextGrid"));
    }
    let (cls, p2) = read_str(b, 12)?;
    if !same_bytes(&cls, &text_grid_bytes()) {
        return Err(malformed("invalid object class"));
    }
    let (x0, p3) = read_num(b, p2, 8)?;
    let (x1, p4) = read_num(b, p3, 8)?;
    let (n, p5) = read_num(b, p4, 4)?;
    let mut tiers: Vec<BinaryTier> = Vec::new();
    let mut p = p5;
    let mut i: u64 = 0;
    assert(bin_tiers_view(tiers@) =~= Seq::<BinTierV>::empty());
    assert(bytes_at(b@, 0, 12) == Some((magic@, 12int)));
    while i < n
        invariant
            i <= n,
            bytes_at(b@, 0, 12) == Some((oo_binary_file(), 12int)),
            str_at(b@, 12) == Some((text_grid(), p2 as int)),
            num_at(b@, p2 as int, 8) == Some((x0 as nat, p3 as int)),
            num_at(b@, p3 as int, 8) == Some((x1 as nat, p4 as int)),
            num_at(b@, p4 as int, 4) == Some((n as nat, p5 as int)),
            tiers_at(b@, p5 as int, i as nat) == Some((bin_tiers_view(tiers@), p as int)),
        decreases n - i,
    {
        match read_tier(b, p) {
            Ok((t, q)) => {
                let ghost v0 = bin_tiers_view(tiers@);
                let ghost tv = t@;
                tiers.push(t);
                assert(bin_tiers_view(tiers@) =~= v0.push(tv));
                p = q;
            },
            Err(e) => {
                proof {
                    lemma_tiers_stop(b@, p5 as int, (i + 1) as nat, n as nat);
                }
                return Err(e);
            },
        }
        i = i + 1;
    }
    Ok(BinaryGrid { xmin: x0, xmax: x1, tiers })
}

/// `x` stands in `b` at `p`.
pub open spec fn has_at(b: Seq<u8>, p: int, x: Seq<u8>) -> bool {
    0 <= p && p + x.len() <= b.len() && b.subrange(p, p + x.len()) == x
}

pub proof fn lemma_has_at_split(b: Seq<u8>, p: int, x: Seq<u8>, y: Seq<u8>)
    requires
        has_at(b, p, x + y),
    ensures
        has_at(b, p, x),
        has_at(b, p + x.len(), y),
{
    let w = b.subrange(p, p + x.len() + y.len());
    assert(w == x + y);
    assert(b.subrange(p, p + x.len()) =~= w.subrange(0, x.len() as int));
    assert(w.subrange(0, x.len() as int) =~= x);
    assert(b.subrange(p + x.len(), p + x.len() + y.len()) =~= w.subrange(x.len() as int, (x.len() + y.len()) as int));
    assert(w.subrange(x.len() as int, (x.len() + y.len()) as int) =~= y);
}

pub proof fn lemma_le_round_trip(n: nat, k: nat)
    requires
        n < pow256(k),
    ensures
        le_bytes(n, k).len() == k,
        le_val(le_bytes(n, k)) == n,
    decreases k,
{
    if k > 0 {
        assert(n / 256 < pow256((k - 1) as nat)) by (nonlinear_arith)
            requires
                n < 256 * pow256((k - 1) as nat),
        ;
        lemma_le_round_trip(n / 256, (k - 1) as nat);
        let s = le_bytes(n, k);
        assert(s.drop_first() =~= le_bytes(n / 256, (k - 1) as nat));
        assert(n == n % 256 + 256 * (n / 256)) by (nonlinear_arith);
    }
}

pub proof fn lemma_num_at(b: Seq<u8>, p: int, n: nat, k: nat)
    requires
        n < pow256(k),
        has_at(b, p, le_bytes(n, k)),
    ensures
        num_at(b, p, k) == Some((n, p + k)),
{
    lemma_le_round_trip(n, k);
}

pub proof fn lemma_u64_at(b: Seq<u8>, p: int, n: u64)
    requires
        has_at(b, p, le_bytes(n as nat, 8)),
    ensures
        num_at(b, p, 8) == Some((n as nat, p + 8)),
{
    reveal_with_fuel(pow256, 9);
    lemma_num_at(b, p, n as nat, 8);
}

pub proof fn lemma_str_at(b: Seq<u8>, p: int, s: Seq<u8>)
    requires
        s.len() <= 0xffff,
        has_at(b, p, str_bytes(s)),
    ensures
        str_at(b, p) == Some((s, p + 2 + s.len())),
{
    reveal_with_fuel(pow256, 3);
    lemma_has_at_split(b, p, le_bytes(s.len(), 2), s);
    lemma_num_at(b, p, s.len(), 2);
    lemma_le_round_trip(s.len(), 2);
}

pub proof fn lemma_text_at(b: Seq<u8>, p: int, c: Seq<char>)
    requires
        utf8(c).len() <= 0xffff,
        has_at(b, p, str_bytes(utf8(c))),
    ensures
        text_at(b, p) == Some((c, p + str_bytes(utf8(c)).len())),
{
    lemma_str_at(b, p, utf8(c));
    vstd::utf8::encode_utf8_valid_utf8(c);
    vstd::utf8::encode_utf8_decode_utf8(c);
    reveal_with_fuel(pow256, 3);
    lemma_le_round_trip(utf8(c).len(), 2);
}

pub proof fn lemma_interval_at(b: Seq<u8>, p: int, i: (u64, u64, Seq<char>))
    requires
        utf8(i.2).len() <= 0xffff,
        has_at(b, p, bin_interval(i)),
    ensures
        interval_at(b, p) == Some((i, p + bin_interval(i).len())),
{
    let a = le_bytes(i.0 as nat, 8);
    let c = le_bytes(i.1 as nat, 8);
    let t = str_bytes(utf8(i.2));
    lemma_has_at_split(b, p, a + c, t);
    lemma_has_at_split(b, p, a, c);
    reveal_with_fuel(pow256, 9);
    lemma_le_round_trip(i.0 as nat, 8);
    lemma_le_round_trip(i.1 as nat, 8);
    lemma_u64_at(b, p, i.0);
    lemma_u64_at(b, p + 8, i.1);
    lemma_text_at(b, p + 16, i.2);
}

pub proof fn lemma_point_at(b: Seq<u8>, p: int, pt: (u64, Seq<char>))
    requires
        utf8(pt.1).len() <= 0xffff,
        has_at(b, p, bin_point(pt)),
    ensures
        point_at(b, p) == Some((pt, p + bin_point(pt).len())),
{
    let a = le_bytes(pt.0 as nat, 8);
    let t = str_bytes(utf8(pt.1));
    lemma_has_at_split(b, p, a, t);
    reveal_with_fuel(pow256, 9);
    lemma_le_round_trip(pt.0 as nat, 8);
    lemma_u64_at(b, p, pt.0);
    lemma_text_at(b, p + 8, pt.1);
}

pub proof fn lemma_intervals_at(b: Seq<u8>, p: int, s: Seq<(u64, u64, Seq<char>)>)
    requires
        forall|i: int| 0 <= i < s.len() ==> utf8((#[trigger] s[i]).2).len() <= 0xffff,
        has_at(b, p, bin_intervals(s)),
    ensures
        intervals_at(b, p, s.len()) == Some((s, p + bin_intervals(s).len())),
    decreases s.len(),
{
    if s.len() > 0 {
        let init = s.drop_last();
        lemma_has_at_split(b, p, bin_intervals(init), bin_interval(s.last()));
        assert forall|i: int| 0 <= i < init.len() implies utf8((#[trigger] init[i]).2).len() <= 0xffff by {
            assert(init[i] == s[i]);
        }
        lemma_intervals_at(b, p, init);
        lemma_interval_at(b, p + bin_intervals(init).len(), s.last());
        assert(init.push(s.last()) =~= s);
    }
}

pub proof fn lemma_points_at(b: Seq<u8>, p: int, s: Seq<(u64, Seq<char>)>)
    requires
        forall|i: int| 0 <= i < s.len() ==> utf8((#[trigger] s[i]).1).len() <= 0xffff,
        has_at(b, p, bin_points(s)),
    ensures
        points_at(b, p, s.len()) == Some((s, p + bin_points(s).len())),
    decreases s.len(),
{
    if s.len() > 0 {
        let init = s.drop_last();
        lemma_has_at_split(b, p, bin_points(init), bin_point(s.last()));
        assert forall|i: int| 0 <= i < init.len() implies utf8((#[trigger] init[i]).1).len() <= 0xffff by {
            assert(init[i] == s[i]);
        }
        lemma_points_at(b, p, init);
        lemma_point_at(b, p + bin_points(init).len(), s.last());
        assert(init.push(s.last()) =~= s);
    }
}

pub proof fn lemma_tier_at(b: Seq<u8>, p: int, t: BinTierV)
    requires
        tier_encodable(t),
        t.tier_type == TierType::IntervalTier ==> t.points.len() == 0,
        t.tier_type == TierType::PointTier ==> t.intervals.len() == 0,
        has_at(b, p, bin_tier(t)),
    ensures
        tier_at(b, p) == Some((t, p + bin_tier(t).len())),
{
    let w = str_bytes(class_word(t.tier_type));
    let nm = str_bytes(utf8(t.name));
    let x0 = le_bytes(t.xmin as nat, 8);
    let x1 = le_bytes(t.xmax as nat, 8);
    let rest = if t.tier_type == TierType::IntervalTier {
        le_bytes(t.intervals.len(), 4) + bin_intervals(t.intervals)
    } else {
        le_bytes(t.points.len(), 4) + bin_points(t.points)
    };
    assert(bin_tier(t) == w + nm + x0 + x1 + rest);
    lemma_has_at_split(b, p, w + nm + x0 + x1, rest);
    lemma_has_at_split(b, p, w + nm + x0, x1);
    lemma_has_at_split(b, p, w + nm, x0);
    lemma_has_at_split(b, p, w, nm);
    reveal_with_fuel(pow256, 9);
    assert(interval_tier().len() == 12);
    assert(text_tier().len() == 8);
    lemma_str_at(b, p, class_word(t.tier_type));
    assert(interval_tier() != text_tier()) by {
        assert(interval_tier()[0] != text_tier()[0]);
    }
    lemma_le_round_trip(class_word(t.tier_type).len(), 2);
    lemma_text_at(b, p + w.len(), t.name);
    let p3 = p + w.len() + nm.len();
    lemma_le_round_trip(t.xmin as nat, 8);
    lemma_le_round_trip(t.xmax as nat, 8);
    lemma_u64_at(b, p3, t.xmin);
    lemma_u64_at(b, p3 + 8, t.xmax);
    let p5 = p3 + 16;
    if t.tier_type == TierType::IntervalTier {
        lemma_has_at_split(b, p5, le_bytes(t.intervals.len(), 4), bin_intervals(t.intervals));
        lemma_le_round_trip(t.intervals.len(), 4);
        lemma_num_at(b, p5, t.intervals.len(), 4);
        lemma_intervals_at(b, p5 + 4, t.intervals);
        assert(t.points =~= Seq::<(u64, Seq<char>)>::empty());
    } else {
        lemma_has_at_split(b, p5, le_bytes(t.points.len(), 4), bin_points(t.points));
        lemma_le_round_trip(t.points.len(), 4);
        lemma_num_at(b, p5, t.points.len(), 4);
        lemma_points_at(b, p5 + 4, t.points);
        assert(t.intervals =~= Seq::<(u64, u64, Seq<char>)>::empty());
    }
}

pub proof fn lemma_pow256_small()
    ensures
        pow256(2) == 0x1_0000,
        pow256(4) == 0x1_0000_0000,
        pow256(8) == 0x1_0000_0000_0000_0000,
{
    reveal_with_fuel(pow256, 9);
}

/// Each tier holds only the list its kind selects.
pub open spec fn tier_shaped(t: BinTierV) -> bool {
    &&& t.tier_type == TierType::IntervalTier ==> t.points.len() == 0
    &&& t.tier_type == TierType::PointTier ==> t.intervals.len() == 0
}

pub proof fn lemma_tiers_at(b: Seq<u8>, p: int, s: Seq<BinTierV>)
    requires
        forall|i: int| 0 <= i < s.len() ==> tier_encodable(#[trigger] s[i]) && tier_shaped(s[i]),
        has_at(b, p, bin_tiers(s)),
    ensures
        tiers_at(b, p, s.len()) == Some((s, p + bin_tiers(s).len())),
    decreases s.len(),
{
    if s.len() > 0 {
        let init = s.drop_last();
        lemma_has_at_split(b, p, bin_tiers(init), bin_tier(s.last()));
        assert forall|i: int| 0 <= i < init.len() implies tier_encodable(#[trigger] init[i]) && tier_shaped(
            init[i],
        ) by {
            assert(init[i] == s[i]);
        }
        lemma_tiers_at(b, p, init);
        assert(tier_encodable(s[s.len() - 1]) && tier_shaped(s[s.len() - 1]));
        lemma_tier_at(b, p + bin_tiers(init).len(), s.last());
        assert(init.push(s.last()) =~= s);
    }
}

/// Reading back the bytes of a document gives the document: for every
/// document whose strings and counts fit the format and whose tiers hold
/// only the list their kind selects.
#[verifier::rlimit(60)]
pub proof fn lemma_binary_round_trip(d: BinDocV)
    requires
        encodable(d),
        forall|k: int| 0 <= k < d.tiers.len() ==> tier_shaped(#[trigger] d.tiers[k]),
    ensures
        bin_read(bin_doc(d)) == Some(d),
{
    let b = bin_doc(d);
    let m = oo_binary_file();
    let c = str_bytes(text_grid());
    let x0 = le_bytes(d.xmin as nat, 8);
    let x1 = le_bytes(d.xmax as nat, 8);
    let n = le_bytes(d.tiers.len(), 4);
    let ts = bin_tiers(d.tiers);
    assert(b == m + c + x0 + x1 + n + ts);
    assert(has_at(b, 0, b)) by {
        assert(b.subrange(0, b.len() as int) =~= b);
    }
    lemma_has_at_split(b, 0, m + c + x0 + x1 + n, ts);
    lemma_has_at_split(b, 0, m + c + x0 + x1, n);
    lemma_has_at_split(b, 0, m + c + x0, x1);
    lemma_has_at_split(b, 0, m + c, x0);
    lemma_has_at_split(b, 0, m, c);
    assert(m.len() == 12);
    assert(text_grid().len() == 8);
    lemma_str_at(b, 12, text_grid());
    lemma_pow256_small();
    lemma_le_round_trip(text_grid().len(), 2);
    let p2: int = (12 + c.len()) as int;
    lemma_le_round_trip(d.xmin as nat, 8);
    lemma_le_round_trip(d.xmax as nat, 8);
    lemma_u64_at(b, p2, d.xmin);
    lemma_u64_at(b, p2 + 8, d.xmax);
    lemma_le_round_trip(d.tiers.len(), 4);
    lemma_num_at(b, p2 + 16, d.tiers.len(), 4);
    assert forall|i: int| 0 <= i < d.tiers.len() implies tier_encodable(#[trigger] d.tiers[i]) && tier_shaped(
        d.tiers[i],
    ) by {}
    lemma_tiers_at(b, p2 + 20, d.tiers);
    assert(b.subrange(0, 12) == m);
}

} // verus!
