//! Densification of a polyline to ~50 m spacing.
//!
//! Between two coordinates whose Euclidean diagonal `d` exceeds 50 m,
//! `ceil(d / 50) - 1` intermediate points are placed: the `j`-th lies at
//! the start plus `j * 50 / d` of the easting and northing differences,
//! each component rounded to the nearest whole metre (ties away from
//! zero).  Rounding each point independently of the others keeps the
//! error of every point below one metre however long the line.
//!
//! `d` is irrational in general, so the rounded components are pinned
//! down without computing `d`: `q` is the rounding of `num / sqrt(s)`
//! exactly when `(2q - 1) * sqrt(s) <= 2 * num < (2q + 1) * sqrt(s)`,
//! and both comparisons square into plain integer arithmetic.

use vstd::prelude::*;
use crate::OSCoords;

verus! {

/// Largest coordinate the densification accepts, far beyond the GB grid;
/// it keeps every squared diagonal and every scaled difference within
/// the 64-bit arithmetic below.
pub const MAX_INFILL_COORD: i64 = 16000000;

/// Squared Euclidean diagonal between two coordinates.
pub open spec fn diag_sq(ae: int, an: int, be: int, bn: int) -> int {
    (be - ae) * (be - ae) + (bn - an) * (bn - an)
}

/// `q` rounds `num / sqrt(s)` to the nearest integer for `num >= 0`:
/// squaring `(2q - 1) * sqrt(s) <= 2 * num < (2q + 1) * sqrt(s)` keeps
/// the characterization in integers (ties round up, hence away from 0).
pub open spec fn is_rounded_nonneg(num: int, s: int, q: int) -> bool {
    &&& 0 <= q
    &&& 4 * num * num < (2 * q + 1) * (2 * q + 1) * s
    &&& (q == 0 || 4 * num * num >= (2 * q - 1) * (2 * q - 1) * s)
}

/// `q` rounds `num / sqrt(s)` to the nearest integer, ties away from 0.
pub open spec fn is_rounded_ratio(num: int, s: int, q: int) -> bool {
    if num >= 0 {
        is_rounded_nonneg(num, s, q)
    } else {
        is_rounded_nonneg(-num, s, -q)
    }
}

/// The nearest integer to `num / sqrt(s)`, ties away from zero.
pub open spec fn rounded_ratio(num: int, s: int) -> int {
    choose|q: int| is_rounded_ratio(num, s, q)
}

proof fn lemma_rounded_nonneg_unique(num: int, s: int, q1: int, q2: int)
    requires
        s >= 1,
        num >= 0,
        is_rounded_nonneg(num, s, q1),
        is_rounded_nonneg(num, s, q2),
    ensures
        q1 == q2,
{
    if q1 < q2 {
        assert((2 * q2 - 1) * (2 * q2 - 1) * s >= (2 * q1 + 1) * (2 * q1 + 1) * s)
            by (nonlinear_arith)
            requires s >= 1, 0 <= q1 < q2;
    }
    if q2 < q1 {
        assert((2 * q1 - 1) * (2 * q1 - 1) * s >= (2 * q2 + 1) * (2 * q2 + 1) * s)
            by (nonlinear_arith)
            requires s >= 1, 0 <= q2 < q1;
    }
}

/// The rounding of `num / sqrt(s)` is unique, so a witness pins
/// `rounded_ratio` down.
pub proof fn lemma_rounded_ratio_val(num: int, s: int, q: int)
    requires
        s >= 1,
        is_rounded_ratio(num, s, q),
    ensures
        rounded_ratio(num, s) == q,
{
    let q0 = choose|q2: int| is_rounded_ratio(num, s, q2);
    assert(is_rounded_ratio(num, s, q0));
    if num >= 0 {
        lemma_rounded_nonneg_unique(num, s, q0, q);
    } else {
        lemma_rounded_nonneg_unique(-num, s, -q0, -q);
    }
}

/// `m` is the number of 50 m steps covering a diagonal of squared
/// length `s`: the least `m >= 1` with `50 * m >= sqrt(s)`.
pub open spec fn is_step_count(s: int, m: int) -> bool {
    &&& 1 <= m
    &&& 2500 * m * m >= s
    &&& 2500 * (m - 1) * (m - 1) < s
}

/// `ceil(sqrt(s) / 50)` for `s >= 1`.
pub open spec fn step_count(s: int) -> int {
    choose|m: int| is_step_count(s, m)
}

/// The step count is unique, so a witness pins `step_count` down.
pub proof fn lemma_step_count_val(s: int, m: int)
    requires
        is_step_count(s, m),
    ensures
        step_count(s) == m,
{
    let m0 = choose|m2: int| is_step_count(s, m2);
    assert(is_step_count(s, m0));
    if m0 < m {
        assert(2500 * (m - 1) * (m - 1) >= 2500 * m0 * m0) by (nonlinear_arith)
            requires 1 <= m0 <= m - 1;
    }
    if m < m0 {
        assert(2500 * (m0 - 1) * (m0 - 1) >= 2500 * m * m) by (nonlinear_arith)
            requires 1 <= m <= m0 - 1;
    }
}

/// Number of intermediate points placed between two coordinates.
pub open spec fn infill_count(ae: int, an: int, be: int, bn: int) -> int {
    if diag_sq(ae, an, be, bn) <= 2500 {
        0
    } else {
        step_count(diag_sq(ae, an, be, bn)) - 1
    }
}

/// The `j`-th intermediate point (1-based): the start coordinate plus
/// the rounding of `j * 50 / d` of each coordinate difference.
pub open spec fn infill_point(ae: int, an: int, be: int, bn: int, j: int) -> (int, int) {
    (
        ae + rounded_ratio(j * 50 * (be - ae), diag_sq(ae, an, be, bn)),
        an + rounded_ratio(j * 50 * (bn - an), diag_sq(ae, an, be, bn)),
    )
}

/// All points contributed by the pair `(a, b)` in order: the
/// intermediate points, then `b` itself (`a` is contributed by the
/// previous pair, or separately at the head of a polyline).
pub open spec fn pair_points(ae: int, an: int, be: int, bn: int) -> Seq<(int, int)> {
    Seq::new(
        infill_count(ae, an, be, bn) as nat,
        |j: int| infill_point(ae, an, be, bn, j + 1),
    ).push((be, bn))
}

/// Floor of the square root.
pub fn isqrt(s: u64) -> (r: u64)
    ensures
        (r as int) * (r as int) <= s < ((r as int) + 1) * ((r as int) + 1),
{
    let mut lo: u64 = 0;
    let mut hi: u64 = 4294967296;
    proof {
        assert((hi as int) * (hi as int) > u64::MAX) by (nonlinear_arith)
            requires hi == 4294967296;
    }
    while lo + 1 < hi
        invariant
            lo < hi <= 4294967296,
            (lo as int) * (lo as int) <= s,
            (hi as int) * (hi as int) > s,
        decreases hi - lo,
    {
        let mid = lo + (hi - lo) / 2;
        proof {
            assert((mid as int) * (mid as int) <= u64::MAX) by (nonlinear_arith)
                requires mid <= 4294967295;
        }
        if mid * mid <= s {
            lo = mid;
        } else {
            hi = mid;
        }
    }
    lo
}

/// Whether `2 * num < (2q + 1) * sqrt(s)`, by squaring both sides.
fn above_half(num: i64, s: u64, q: i64) -> (r: bool)
    requires
        0 <= num <= 2000000000000000,
        1 <= s,
        0 <= q <= 40000000,
    ensures
        r == (4 * (num as int) * (num as int) < (2 * (q as int) + 1) * (2 * (q as int) + 1) * (
        s as int)),
{
    proof {
        assert(4 * (num as int) * (num as int) <= u128::MAX) by (nonlinear_arith)
            requires 0 <= num <= 2000000000000000;
        assert(0 < (2 * (q as int) + 1) * (2 * (q as int) + 1) <= 6500000000000000)
            by (nonlinear_arith)
            requires 0 <= q <= 40000000;
        assert((2 * (q as int) + 1) * (2 * (q as int) + 1) * (s as int) <= u128::MAX)
            by (nonlinear_arith)
            requires
                0 < (2 * (q as int) + 1) * (2 * (q as int) + 1) <= 6500000000000000,
                1 <= s <= u64::MAX,
        ;
    }
    let n4: u128 = 4 * (num as u128) * (num as u128);
    let t: u128 = 2 * (q as u128) + 1;
    let rhs: u128 = t * t * (s as u128);
    n4 < rhs
}

/// The rounding of `num / sqrt(s)` for `num >= 0`, found by binary
/// search for the least `q` with `2 * num < (2q + 1) * sqrt(s)`; the
/// caller supplies a bound `hi` already known to satisfy that test.
fn round_ratio_nonneg(num: i64, s: u64, hi: i64) -> (q: i64)
    requires
        0 <= num <= 2000000000000000,
        1 <= s,
        0 <= hi <= 40000000,
        4 * (num as int) * (num as int) < (2 * (hi as int) + 1) * (2 * (hi as int) + 1) * (
        s as int),
    ensures
        is_rounded_nonneg(num as int, s as int, q as int),
        0 <= q <= hi,
{
    if above_half(num, s, 0) {
        return 0;
    }
    let mut lo: i64 = 0;
    let mut h: i64 = hi;
    while lo + 1 < h
        invariant
            0 <= lo < h <= hi <= 40000000,
            0 <= num <= 2000000000000000,
            1 <= s,
            !(4 * (num as int) * (num as int) < (2 * (lo as int) + 1) * (2 * (lo as int) + 1) * (
            s as int)),
            4 * (num as int) * (num as int) < (2 * (h as int) + 1) * (2 * (h as int) + 1) * (
            s as int),
        decreases h - lo,
    {
        let mid = lo + (h - lo) / 2;
        if above_half(num, s, mid) {
            h = mid;
        } else {
            lo = mid;
        }
    }
    h
}

/// The number of 50 m steps covering a diagonal of squared length `s`.
fn step_count_exec(s: u64) -> (m: u64)
    requires
        1 <= s,
    ensures
        is_step_count(s as int, m as int),
{
    let r = isqrt(s);
    proof {
        assert(r <= 4294967295) by (nonlinear_arith)
            requires (r as int) * (r as int) <= u64::MAX;
    }
    let m0 = r / 50;
    proof {
        assert(m0 <= 85899346) by {
            vstd::arithmetic::div_mod::lemma_multiply_divide_le(r as int, 50, 85899346);
        }
        assert(2500 * (m0 as int) * (m0 as int) <= u128::MAX) by (nonlinear_arith)
            requires m0 <= 85899346;
    }
    let c: u128 = 2500 * (m0 as u128) * (m0 as u128);
    proof {
        assert(50 * (m0 as int) <= r) by {
            vstd::arithmetic::div_mod::lemma_fundamental_div_mod(r as int, 50);
            vstd::arithmetic::div_mod::lemma_mod_bound(r as int, 50);
        }
    }
    if m0 >= 1 && c >= (s as u128) {
        proof {
            assert(2500 * ((m0 as int) - 1) * ((m0 as int) - 1) < s) by (nonlinear_arith)
                requires
                    1 <= m0,
                    50 * (m0 as int) <= r as int,
                    (r as int) * (r as int) <= s as int;
        }
        m0
    } else {
        proof {
            let mi = m0 as int + 1;
            assert(50 * mi >= r as int + 1) by {
                vstd::arithmetic::div_mod::lemma_fundamental_div_mod(r as int, 50);
                vstd::arithmetic::div_mod::lemma_mod_bound(r as int, 50);
            }
            assert(2500 * mi * mi >= (r as int + 1) * (r as int + 1)) by (nonlinear_arith)
                requires 50 * mi >= r as int + 1, mi >= 1;
            if m0 >= 1 {
                assert(2500 * (mi - 1) * (mi - 1) < s);
            } else {
                assert(2500 * (mi - 1) * (mi - 1) == 0) by (nonlinear_arith)
                    requires mi == 1;
            }
            assert(is_step_count(s as int, mi));
        }
        m0 + 1
    }
}

/// For `1 <= j <= k` with `2500 k^2 < s`, the scaled difference
/// `j * 50 * d` stays strictly below `sqrt(s) * d`, which is what the
/// binary search needs of its bound `|d|`.
proof fn lemma_num_bound(j: int, k: int, d: int, s: int)
    requires
        1 <= j <= k,
        2500 * k * k < s,
        0 <= d,
    ensures
        0 <= j * 50 * d,
        4 * (j * 50 * d) * (j * 50 * d) < (2 * d + 1) * (2 * d + 1) * s,
{
    assert((j * 50) * (j * 50) <= (k * 50) * (k * 50)) by (nonlinear_arith)
        requires 1 <= j <= k;
    assert((k * 50) * (k * 50) == 2500 * k * k) by (nonlinear_arith);
    assert(4 * (j * 50 * d) * (j * 50 * d) == 4 * d * d * ((j * 50) * (j * 50)))
        by (nonlinear_arith);
    assert(4 * d * d * ((j * 50) * (j * 50)) <= 4 * d * d * (2500 * k * k)) by (nonlinear_arith)
        requires 0 <= d, (j * 50) * (j * 50) <= 2500 * k * k;
    assert(4 * d * d * (2500 * k * k) < 4 * d * d * s || d == 0) by (nonlinear_arith)
        requires 2500 * k * k < s, 0 <= d;
    assert(4 * d * d * s <= (2 * d + 1) * (2 * d + 1) * s) by (nonlinear_arith)
        requires 0 <= d, 0 < s;
    assert(j * 50 * d >= 0) by (nonlinear_arith)
        requires j >= 1, d >= 0;
    if d == 0 {
        assert(4 * (j * 50 * d) * (j * 50 * d) == 0) by (nonlinear_arith)
            requires d == 0;
        assert((2 * d + 1) * (2 * d + 1) * s > 0) by (nonlinear_arith)
            requires 0 <= d, 0 < s;
    }
}

/// One signed rounded component: the rounding of `j * 50 * d / sqrt(s)`.
fn infill_component(j: i64, k: i64, d: i64, s: u64) -> (q: i64)
    requires
        1 <= j <= k,
        -32000001 < d < 32000001,
        2500 * (k as int) * (k as int) < s,
        s <= 2000000000000000,
    ensures
        is_rounded_ratio(j * 50 * (d as int), s as int, q as int),
        d >= 0 ==> 0 <= q <= d,
        d < 0 ==> d <= q <= 0,
{
    let da: i64 = if d >= 0 {
        d
    } else {
        -d
    };
    proof {
        assert(k as int <= 900000) by (nonlinear_arith)
            requires 2500 * (k as int) * (k as int) < s, 1 <= k, s <= 2000000000000000;
        assert(0 <= (j as int) * 50 * (da as int) <= 2000000000000000) by (nonlinear_arith)
            requires 1 <= j <= 900000, 0 <= da <= 32000001;
        lemma_num_bound(j as int, k as int, da as int, s as int);
    }
    let numa: i64 = j * 50 * da;
    let qa = round_ratio_nonneg(numa, s, da);
    if d >= 0 {
        proof {
            assert(j * 50 * (d as int) >= 0) by (nonlinear_arith)
                requires j >= 1, d >= 0;
        }
        qa
    } else {
        proof {
            assert(j * 50 * (d as int) < 0) by (nonlinear_arith)
                requires j >= 1, d < 0;

            assert(j * 50 * (d as int) == -((j as int) * 50 * (da as int))) by (nonlinear_arith)
                requires da as int == -(d as int);
        }
        -qa
    }
}

/// The coordinates of a list, as mathematical pairs.
pub open spec fn en_seq(s: Seq<OSCoords>) -> Seq<(int, int)> {
    Seq::new(s.len(), |i: int| (s[i].easting as int, s[i].northing as int))
}

/// Taking coordinates distributes over concatenation.
pub proof fn lemma_en_seq_add(s1: Seq<OSCoords>, s2: Seq<OSCoords>)
    ensures
        en_seq(s1 + s2) == en_seq(s1) + en_seq(s2),
{
    assert(en_seq(s1 + s2) =~= en_seq(s1) + en_seq(s2));
}

/// Intermediate points at ~50 m spacing between two coordinates, then
/// the end coordinate; the start coordinate is prepended when
/// `include_start` is set (only the first pair of a polyline does this,
/// so merged pairs share no duplicate).
pub fn get_infills(coord_start: OSCoords, coord_end: OSCoords, include_start: bool) -> (r: Vec<
    OSCoords,
>)
    requires
        0 <= coord_start.easting <= MAX_INFILL_COORD,
        0 <= coord_start.northing <= MAX_INFILL_COORD,
        0 <= coord_end.easting <= MAX_INFILL_COORD,
        0 <= coord_end.northing <= MAX_INFILL_COORD,
    ensures
        ({
            let ae = coord_start.easting as int;
            let an = coord_start.northing as int;
            let be = coord_end.easting as int;
            let bn = coord_end.northing as int;
            let pts = pair_points(ae, an, be, bn);
            let base: int = if include_start {
                1
            } else {
                0
            };
            let head: Seq<(int, int)> = if include_start {
                seq![(ae, an)]
            } else {
                Seq::empty()
            };
            &&& r@.len() == base + pts.len()
            &&& en_seq(r@) == head + pts
            &&& (include_start ==> r@[0] == coord_start)
            &&& forall|i: int|
                0 <= i < pts.len() - 1 ==> (#[trigger] r@[base + i]).elevation_dm is None
            &&& r@[base + pts.len() - 1] == coord_end
            &&& forall|i: int|
                0 <= i < r@.len() ==> 0 <= (#[trigger] r@[i]).easting <= MAX_INFILL_COORD && 0
                    <= r@[i].northing <= MAX_INFILL_COORD
        }),
{
    let ghost ae = coord_start.easting as int;
    let ghost an = coord_start.northing as int;
    let ghost be = coord_end.easting as int;
    let ghost bn = coord_end.northing as int;
    let mut out: Vec<OSCoords> = Vec::new();
    if include_start {
        out.push(coord_start);
    }
    let ghost base: int = if include_start {
        1int
    } else {
        0int
    };
    let de: i64 = coord_end.easting - coord_start.easting;
    let dn: i64 = coord_end.northing - coord_start.northing;
    proof {
        assert(0 <= (de as int) * (de as int) <= 256000000000000 && 0 <= (dn as int) * (
        dn as int) <= 256000000000000) by (nonlinear_arith)
            requires -16000000 <= de <= 16000000, -16000000 <= dn <= 16000000;
    }
    let s: i64 = de * de + dn * dn;
    proof {
        assert(s == diag_sq(ae, an, be, bn));
    }
    if s > 2500 {
        let su: u64 = s as u64;
        let m = step_count_exec(su);
        proof {
            lemma_step_count_val(s as int, m as int);
            assert((m as int) - 1 <= 900000) by (nonlinear_arith)
                requires
                    2500 * ((m as int) - 1) * ((m as int) - 1) < s,
                    s <= 2000000000000000,
                    1 <= m,
            ;
        }
        proof {
            if m == 1 {
                assert(2500 * (m as int) * (m as int) == 2500);
            }
        }
        let k: i64 = (m - 1) as i64;
        assert(k as int == infill_count(ae, an, be, bn));
        assert(1 <= k);
        let mut j: i64 = 1;
        while j <= k
            invariant
                1 <= j <= k + 1,
                1 <= k <= 900000,
                out@.len() == base + j - 1,
                base == if include_start { 1int } else { 0int },
                include_start ==> out@[0] == coord_start,
                ae == coord_start.easting && an == coord_start.northing,
                be == coord_end.easting && bn == coord_end.northing,
                de == be - ae,
                dn == bn - an,
                -16000000 <= de <= 16000000,
                -16000000 <= dn <= 16000000,
                0 <= ae <= 16000000 && 0 <= an <= 16000000,
                0 <= be <= 16000000 && 0 <= bn <= 16000000,
                s == diag_sq(ae, an, be, bn),
                2500 < s <= 2000000000000000,
                su == s,
                2500 * (k as int) * (k as int) < s,
                forall|t: int|
                    0 <= t < j - 1 ==> ((#[trigger] out@[base + t]).easting as int,
                    out@[base + t].northing as int) == infill_point(ae, an, be, bn, t + 1),
                forall|t: int|
                    0 <= t < j - 1 ==> (#[trigger] out@[base + t]).elevation_dm is None,
                forall|i: int|
                    0 <= i < out@.len() ==> 0 <= (#[trigger] out@[i]).easting <= MAX_INFILL_COORD
                        && 0 <= out@[i].northing <= MAX_INFILL_COORD,
            decreases k + 1 - j,
        {
            let qe = infill_component(j, k, de, su);
            let qn = infill_component(j, k, dn, su);
            proof {
                lemma_rounded_ratio_val((j as int) * 50 * (de as int), s as int, qe as int);
                lemma_rounded_ratio_val((j as int) * 50 * (dn as int), s as int, qn as int);
            }
            let pe: i64 = coord_start.easting + qe;
            let pn: i64 = coord_start.northing + qn;
            out.push(OSCoords { easting: pe, northing: pn, elevation_dm: None });
            j += 1;
        }
        out.push(coord_end);
        proof {
            let pts = pair_points(ae, an, be, bn);
            let head: Seq<(int, int)> = if include_start {
                seq![(ae, an)]
            } else {
                Seq::empty()
            };
            assert(pts.len() == k + 1);
            assert(forall|i: int|
                0 <= i < pts.len() - 1 ==> #[trigger] pts[i] == infill_point(ae, an, be, bn, i + 1));
            assert(pts[pts.len() - 1] == (be, bn));
            assert forall|jj: int| 0 <= jj < base + pts.len() implies en_seq(out@)[jj] == (head
                + pts)[jj] by {
                if jj < base {
                    assert(out@[0] == coord_start);
                } else {
                    let t = jj - base;
                    if t < pts.len() - 1 {
                        assert(((#[trigger] out@[base + t]).easting as int,
                        out@[base + t].northing as int) == infill_point(ae, an, be, bn, t + 1));
                    } else {
                        assert(out@[base + t] == coord_end);
                    }
                }
            }
            assert(en_seq(out@) =~= head + pts);
        }
    } else {
        out.push(coord_end);
        proof {
            let pts = pair_points(ae, an, be, bn);
            let head: Seq<(int, int)> = if include_start {
                seq![(ae, an)]
            } else {
                Seq::empty()
            };
            assert(infill_count(ae, an, be, bn) == 0);
            assert(pts.len() == 1);
            assert(pts[0] == (be, bn));
            assert forall|jj: int| 0 <= jj < base + pts.len() implies en_seq(out@)[jj] == (head
                + pts)[jj] by {
                if jj < base {
                    assert(out@[0] == coord_start);
                } else {
                    assert(out@[base] == coord_end);
                }
            }
            assert(en_seq(out@) =~= head + pts);
        }
    }
    out
}

} // verus!
