//! Fixed-point scalar arithmetic for world coordinates, distances and angles.
//!
//! World lengths and headings are held as `i64` values scaled by `FP_ONE`
//! (four decimal places), so every geometric computation of the renderer is
//! exact integer arithmetic with truncation toward zero, mirroring how a
//! float-to-integer cast would round.

use vstd::prelude::*;
use vstd::arithmetic::div_mod::{
    lemma_div_is_ordered, lemma_div_nonincreasing, lemma_div_pos_is_pos,
    lemma_fundamental_div_mod_converse, lemma_small_mod,
};

verus! {

/// One world unit in fixed-point representation.
pub const FP_ONE: i64 = 10000;
/// Half a world unit (the marching step of the line drawers).
pub const FP_HALF: i64 = 5000;
/// A tenth of a world unit (the marching step of the ray caster).
pub const FP_TENTH: i64 = 1000;
/// 90 degrees in fixed-point.
pub const DEG_90: i64 = 900000;
/// 180 degrees in fixed-point.
pub const DEG_180: i64 = 1800000;
/// 360 degrees in fixed-point.
pub const DEG_360: i64 = 3600000;

/// Magnitude bound accepted by the fixed-point helpers; products of two such
/// operands stay well inside `i64`.
pub const FP_ARG_MAX: i64 = 1000000000;

/// Division by `FP_ONE` with truncation toward zero, the rounding a
/// float-to-int cast performs.
pub open spec fn fp_div_one(p: int) -> int {
    if p >= 0 {
        p / (FP_ONE as int)
    } else {
        -((-p) / (FP_ONE as int))
    }
}

/// Fixed-point product: the mathematical product rescaled to fixed-point,
/// truncated toward zero.
pub open spec fn fp_mul_spec(a: int, b: int) -> int {
    fp_div_one(a * b)
}

/// The fixed-point product of values bounded by `FP_ARG_MAX` is bounded by
/// the product of the bounds.
pub proof fn lemma_fp_mul_bound(a: int, b: int, m: int, n: int)
    requires
        0 <= m,
        0 <= n,
        -m <= a <= m,
        -n <= b <= n,
    ensures
        -(m * n) <= fp_mul_spec(a, b) <= m * n,
{
    let s = FP_ONE as int;
    let p = a * b;
    assert(-(m * n) <= p <= m * n) by (nonlinear_arith)
        requires p == a * b, 0 <= m, 0 <= n, -m <= a <= m, -n <= b <= n;
    if p >= 0 {
        lemma_div_is_ordered(p, m * n, s);
        lemma_div_pos_is_pos(p, s);
        lemma_div_nonincreasing(m * n, s);
    } else {
        lemma_div_is_ordered(-p, m * n, s);
        lemma_div_pos_is_pos(-p, s);
        lemma_div_nonincreasing(m * n, s);
    }
}


/// A fixed-point product with a factor of at most one unit keeps the other
/// factor's bound.
pub proof fn lemma_fp_mul_unit_bound(a: int, b: int, m: int)
    requires
        0 <= m,
        -m <= a <= m,
        -(FP_ONE as int) <= b <= FP_ONE as int,
    ensures
        -m <= fp_mul_spec(a, b) <= m,
{
    let s = FP_ONE as int;
    let p = a * b;
    assert(-(m * s) <= p <= m * s) by (nonlinear_arith)
        requires p == a * b, 0 <= m, -m <= a <= m, -s <= b <= s, s == 10000;
    assert(m * s == s * m + 0) by (nonlinear_arith);
    if p >= 0 {
        lemma_div_is_ordered(p, s * m + 0, s);
        lemma_div_pos_is_pos(p, s);
    } else {
        lemma_div_is_ordered(-p, s * m + 0, s);
        lemma_div_pos_is_pos(-p, s);
    }
    vstd::arithmetic::div_mod::lemma_div_multiples_vanish_fancy(m, 0, s);
}

/// Fixed-point multiply, exact per `fp_mul_spec`.
pub fn fp_mul(a: i64, b: i64) -> (r: i64)
    requires
        -FP_ARG_MAX <= a <= FP_ARG_MAX,
        -FP_ARG_MAX <= b <= FP_ARG_MAX,
    ensures
        r == fp_mul_spec(a as int, b as int),
        -FP_ARG_MAX * FP_ARG_MAX <= r <= FP_ARG_MAX * FP_ARG_MAX,
{
    proof {
        lemma_fp_mul_bound(a as int, b as int, FP_ARG_MAX as int, FP_ARG_MAX as int);
        assert((a as int) * (b as int) <= FP_ARG_MAX as int * FP_ARG_MAX as int
            && -(FP_ARG_MAX as int * FP_ARG_MAX as int) <= (a as int) * (b as int))
            by (nonlinear_arith)
            requires -FP_ARG_MAX <= a <= FP_ARG_MAX, -FP_ARG_MAX <= b <= FP_ARG_MAX;
    }
    let p: i64 = a * b;
    if p >= 0 {
        p / FP_ONE
    } else {
        -((-p) / FP_ONE)
    }
}

/// A heading reduced to the canonical range `[0, 360)` degrees; the reduction
/// is the Euclidean remainder.
pub open spec fn norm_deg_spec(a: int) -> int {
    a % (DEG_360 as int)
}

/// Reduces a fixed-point heading into `[0, 360)` degrees.
pub fn norm_deg(a: i64) -> (r: i64)
    requires
        -4000000000 <= a <= 4000000000,
    ensures
        r == norm_deg_spec(a as int),
        0 <= r < DEG_360,
{
    let mut cur: i64 = a;
    let ghost d = DEG_360 as int;
    while cur < 0
        invariant
            d == DEG_360 as int,
            -4000000000 <= cur <= 4000000000,
            (cur as int) % d == (a as int) % d,
        decreases 4000000000 - cur,
    {
        proof {
            vstd::arithmetic::div_mod::lemma_mod_add_multiples_vanish(cur as int, d);
        }
        cur = cur + DEG_360;
    }
    while cur >= DEG_360
        invariant
            d == DEG_360 as int,
            0 <= cur <= 4000000000,
            (cur as int) % d == (a as int) % d,
        decreases cur,
    {
        proof {
            vstd::arithmetic::div_mod::lemma_mod_sub_multiples_vanish(cur as int, d);
        }
        cur = cur - DEG_360;
    }
    proof {
        lemma_small_mod(cur as nat, d as nat);
        assert((cur as int) % d == (cur as nat) as int % (d as nat) as int);
    }
    cur
}

/// The rational sine approximation used by the renderer on `[0, 180]`
/// degrees, in fixed-point: `4 d (180 - d) / (40500 - d (180 - d))` with all
/// quantities scaled by `FP_ONE`.
pub open spec fn half_wave_spec(d: int) -> int {
    (4 * d * ((DEG_180 as int) - d) * (FP_ONE as int))
        / (40500 * (FP_ONE as int) * (FP_ONE as int) - d * ((DEG_180 as int) - d))
}

/// Sine of a fixed-point heading in degrees: the half-wave approximation,
/// mirrored with negative sign on `(180, 360)`.
pub open spec fn sin_spec(a: int) -> int {
    if norm_deg_spec(a) <= DEG_180 as int {
        half_wave_spec(norm_deg_spec(a))
    } else {
        -half_wave_spec(norm_deg_spec(a) - (DEG_180 as int))
    }
}

/// Cosine as the sine of the heading advanced a quarter turn.
pub open spec fn cos_spec(a: int) -> int {
    sin_spec(a + (DEG_90 as int))
}

/// The half-wave numerator `d (180 - d)` is at most `(90 degrees)^2`.
proof fn lemma_half_wave_product_bound(d: int)
    requires
        0 <= d <= DEG_180 as int,
    ensures
        0 <= d * ((DEG_180 as int) - d) <= 810000000000,
{
    assert(0 <= d * ((DEG_180 as int) - d) <= 810000000000) by (nonlinear_arith)
        requires 0 <= d <= DEG_180 as int;
}

/// Half-wave values lie in `[0, FP_ONE]`.
proof fn lemma_half_wave_bound(d: int)
    requires
        0 <= d <= DEG_180 as int,
    ensures
        0 <= half_wave_spec(d) <= FP_ONE as int,
{
    let s = FP_ONE as int;
    let t = d * ((DEG_180 as int) - d);
    lemma_half_wave_product_bound(d);
    let num = 4 * d * ((DEG_180 as int) - d) * s;
    let den = 40500 * s * s - t;
    assert(num == 4 * t * s) by (nonlinear_arith)
        requires t == d * ((DEG_180 as int) - d), num == 4 * d * ((DEG_180 as int) - d) * s;
    assert(den >= 40500 * s * s - 810000000000);
    assert(num >= 0) by (nonlinear_arith)
        requires t >= 0, s > 0, num == 4 * t * s;
    assert(num <= den * s) by (nonlinear_arith)
        requires num == 4 * t * s, den == 40500 * s * s - t, s == 10000, 0 <= t <= 810000000000;
    lemma_div_pos_is_pos(num, den);
    lemma_div_is_ordered(num, den * s, den);
    assert(den * s / den == s) by (nonlinear_arith)
        requires den > 0, s > 0;
}

/// The half-wave approximation, exact per `half_wave_spec`.
fn half_wave(d: i64) -> (r: i64)
    requires
        0 <= d <= DEG_180,
    ensures
        r == half_wave_spec(d as int),
        0 <= r <= FP_ONE,
{
    proof {
        lemma_half_wave_product_bound(d as int);
        lemma_half_wave_bound(d as int);
    }
    let t: i64 = d * (DEG_180 - d);
    proof {
        assert(t == (d as int) * ((DEG_180 as int) - d as int));
        assert(4 * (d as int) * ((DEG_180 as int) - d as int) * (FP_ONE as int)
            == 4 * ((d as int) * ((DEG_180 as int) - d as int)) * (FP_ONE as int))
            by (nonlinear_arith);
    }
    let num: i64 = 4 * t * FP_ONE;
    let den: i64 = 40500 * FP_ONE * FP_ONE - t;
    num / den
}

/// Sine of a fixed-point heading, exact per `sin_spec`.
pub fn sin_fp(a: i64) -> (r: i64)
    requires
        -4000000000 <= a <= 4000000000,
    ensures
        r == sin_spec(a as int),
        -FP_ONE <= r <= FP_ONE,
{
    let m: i64 = norm_deg(a);
    if m <= DEG_180 {
        proof {
            lemma_half_wave_bound(m as int);
        }
        half_wave(m)
    } else {
        proof {
            lemma_half_wave_bound(m as int - DEG_180 as int);
        }
        -half_wave(m - DEG_180)
    }
}

/// Cosine of a fixed-point heading, exact per `cos_spec`.
pub fn cos_fp(a: i64) -> (r: i64)
    requires
        -3900000000 <= a <= 3900000000,
    ensures
        r == cos_spec(a as int),
        -FP_ONE <= r <= FP_ONE,
{
    sin_fp(a + DEG_90)
}


/// Truncation toward zero stays within one scale unit of the exact
/// quotient.
proof fn lemma_fp_div_one_near(p: int)
    ensures
        p - (FP_ONE as int) < (FP_ONE as int) * fp_div_one(p) < p + (FP_ONE as int),
{
    let s = FP_ONE as int;
    if p >= 0 {
        vstd::arithmetic::div_mod::lemma_fundamental_div_mod(p, s);
        vstd::arithmetic::div_mod::lemma_mod_bound(p, s);
    } else {
        vstd::arithmetic::div_mod::lemma_fundamental_div_mod(-p, s);
        vstd::arithmetic::div_mod::lemma_mod_bound(-p, s);
    }
}

/// One marching step (a tenth of a unit) along a direction component of at
/// most one unit moves the fixed-point coordinate by at most a tenth of a
/// unit plus one truncation quantum.
pub proof fn lemma_fp_mul_step(c: int, v: int)
    requires
        -(FP_ONE as int) <= v <= FP_ONE as int,
    ensures
        fp_mul_spec(c, v) - 1001 <= fp_mul_spec(c + 1000, v) <= fp_mul_spec(c, v) + 1001,
{
    let s = FP_ONE as int;
    let p1 = c * v;
    let p2 = (c + 1000) * v;
    assert(p2 == p1 + 1000 * v) by (nonlinear_arith)
        requires p1 == c * v, p2 == (c + 1000) * v;
    assert(-10000000 <= 1000 * v <= 10000000) by (nonlinear_arith)
        requires -10000 <= v <= 10000;
    lemma_fp_div_one_near(p1);
    lemma_fp_div_one_near(p2);
    let t1 = fp_div_one(p1);
    let t2 = fp_div_one(p2);
    assert(s * t2 < p2 + s);
    assert(p1 - s < s * t1);
    assert(s * (t2 - t1) < 1000 * v + 2 * s && 1000 * v - 2 * s < s * (t2 - t1))
        by (nonlinear_arith)
        requires s * t2 < p2 + s, p2 - s < s * t2, p1 - s < s * t1, s * t1 < p1 + s,
            p2 == p1 + 1000 * v, s == 10000;
    assert(-1002 < t2 - t1 < 1002) by (nonlinear_arith)
        requires s == 10000, s * (t2 - t1) < 1000 * v + 2 * s,
            1000 * v - 2 * s < s * (t2 - t1), -10000000 <= 1000 * v <= 10000000;
}

/// On the quarter-turns around 90 degrees, the half wave stays at least
/// 7058 (its value at 45 degrees).
proof fn lemma_half_wave_lower(d: int)
    requires
        450000 <= d <= 1350000,
    ensures
        half_wave_spec(d) >= 7058,
{
    let s = FP_ONE as int;
    let t = d * ((DEG_180 as int) - d);
    assert(607500000000 <= t <= 810000000000) by (nonlinear_arith)
        requires 450000 <= d <= 1350000, t == d * (1800000 - d);
    let num = 4 * d * ((DEG_180 as int) - d) * s;
    let den = 40500 * s * s - t;
    assert(num == 4 * t * s) by (nonlinear_arith)
        requires t == d * ((DEG_180 as int) - d), num == 4 * d * ((DEG_180 as int) - d) * s;
    assert(den <= 3442500000000int);
    assert(num >= 24300000000000000int) by (nonlinear_arith)
        requires num == 4 * t * s, t >= 607500000000, s == 10000;
    lemma_div_is_ordered(24300000000000000int, num, den);
    vstd::arithmetic::div_mod::lemma_div_is_ordered_by_denominator(
        24300000000000000int, den, 3442500000000int);
    vstd::arithmetic::div_mod::lemma_fundamental_div_mod_converse(
        24300000000000000int, 3442500000000int, 7058, 2835000000000int);
}

/// Every heading has a sine or a cosine of magnitude at least 7058 in
/// fixed-point (about 0.7 world units per unit step).
pub proof fn lemma_heading_component_bound(a: int)
    ensures
        sin_spec(a) >= 7058 || sin_spec(a) <= -7058
            || cos_spec(a) >= 7058 || cos_spec(a) <= -7058,
{
    let d = DEG_360 as int;
    let m = a % d;
    vstd::arithmetic::div_mod::lemma_mod_bound(a, d);
    let m2 = (a + (DEG_90 as int)) % d;
    vstd::arithmetic::div_mod::lemma_add_mod_noop(a, DEG_90 as int, d);
    lemma_small_mod(DEG_90 as nat, d as nat);
    if m + (DEG_90 as int) < d {
        lemma_small_mod((m + (DEG_90 as int)) as nat, d as nat);
        assert(m2 == m + (DEG_90 as int));
    } else {
        vstd::arithmetic::div_mod::lemma_mod_sub_multiples_vanish(m + (DEG_90 as int), d);
        lemma_small_mod((m + (DEG_90 as int) - d) as nat, d as nat);
        assert(m2 == m + (DEG_90 as int) - d);
    }
    if 450000 <= m <= 1350000 {
        lemma_half_wave_lower(m);
        assert(sin_spec(a) >= 7058);
    } else if 2250000 <= m <= 3150000 {
        lemma_half_wave_lower(m - (DEG_180 as int));
        lemma_half_wave_bound(m - (DEG_180 as int));
        assert(sin_spec(a) <= -7058);
    } else if m < 450000 {
        assert(m2 == m + 900000);
        lemma_half_wave_lower(m2);
        assert(cos_spec(a) >= 7058);
    } else if m < 2250000 {
        assert(m2 == m + 900000);
        lemma_half_wave_lower(m2 - (DEG_180 as int));
        lemma_half_wave_bound(m2 - (DEG_180 as int));
        assert(cos_spec(a) <= -7058);
    } else {
        assert(m2 == m - 2700000);
        lemma_half_wave_lower(m2);
        assert(cos_spec(a) >= 7058);
    }
}


/// Sine and cosine stay within one fixed-point unit for every heading.
pub proof fn lemma_trig_bounds(a: int)
    ensures
        -(FP_ONE as int) <= sin_spec(a) <= FP_ONE as int,
        -(FP_ONE as int) <= cos_spec(a) <= FP_ONE as int,
{
    let d = DEG_360 as int;
    vstd::arithmetic::div_mod::lemma_mod_bound(a, d);
    vstd::arithmetic::div_mod::lemma_mod_bound(a + (DEG_90 as int), d);
    let m = a % d;
    if m <= DEG_180 as int {
        lemma_half_wave_bound(m);
    } else {
        lemma_half_wave_bound(m - (DEG_180 as int));
    }
    let m2 = (a + (DEG_90 as int)) % d;
    if m2 <= DEG_180 as int {
        lemma_half_wave_bound(m2);
    } else {
        lemma_half_wave_bound(m2 - (DEG_180 as int));
    }
}

/// `r` is the integer square root of `n`.
pub open spec fn is_isqrt(n: int, r: int) -> bool {
    0 <= r && r * r <= n && n < (r + 1) * (r + 1)
}

/// The integer square root, as the unique witness of `is_isqrt`.
pub open spec fn isqrt_spec(n: int) -> int {
    choose|r: int| is_isqrt(n, r)
}

/// Every nonnegative integer has an integer square root.
pub proof fn lemma_isqrt_exists(n: nat)
    ensures
        exists|r: int| is_isqrt(n as int, r),
    decreases n,
{
    if n == 0 {
        assert(is_isqrt(0, 0)) by (nonlinear_arith);
    } else {
        lemma_isqrt_exists((n - 1) as nat);
        let p = choose|r: int| #[trigger] is_isqrt(n as int - 1, r);
        if (p + 1) * (p + 1) <= n as int {
            assert(is_isqrt(n as int, p + 1)) by (nonlinear_arith)
                requires is_isqrt(n as int - 1, p), (p + 1) * (p + 1) <= n as int;
        } else {
            assert(is_isqrt(n as int, p));
        }
    }
}

/// The integer square root is unique.
pub proof fn lemma_isqrt_unique(n: int, r1: int, r2: int)
    requires
        is_isqrt(n, r1),
        is_isqrt(n, r2),
    ensures
        r1 == r2,
{
    assert(r1 == r2) by (nonlinear_arith)
        requires is_isqrt(n, r1), is_isqrt(n, r2);
}

/// `isqrt_spec` satisfies its defining property.
pub proof fn lemma_isqrt_spec(n: int)
    requires
        0 <= n,
    ensures
        is_isqrt(n, isqrt_spec(n)),
{
    lemma_isqrt_exists(n as nat);
}

/// A square below `n` stays below the integer square root of `n`.
pub proof fn lemma_isqrt_lower(n: int, a: int)
    requires
        0 <= a,
        a * a <= n,
    ensures
        a <= isqrt_spec(n),
{
    assert(0 <= n) by (nonlinear_arith)
        requires 0 <= a, a * a <= n;
    lemma_isqrt_spec(n);
    let r = isqrt_spec(n);
    if a > r {
        assert(false) by (nonlinear_arith)
            requires a >= r + 1, 0 <= r, a * a <= n, n < (r + 1) * (r + 1);
    }
}

/// Integer square root by bisection, exact per `isqrt_spec`.
pub fn isqrt(n: u64) -> (r: u64)
    requires
        n <= 3400000000000000,
    ensures
        r == isqrt_spec(n as int),
        is_isqrt(n as int, r as int),
{
    let mut lo: u64 = 0;
    let mut hi: u64 = 60000000;
    proof {
        assert((60000000 as int) * (60000000 as int) > n as int);
    }
    while lo + 1 < hi
        invariant
            0 <= lo < hi <= 60000000,
            (lo as int) * (lo as int) <= n as int,
            (n as int) < (hi as int) * (hi as int),
        decreases hi - lo,
    {
        let mid: u64 = lo + (hi - lo) / 2;
        proof {
            assert((mid as int) * (mid as int) <= 3600000000000000) by (nonlinear_arith)
                requires 0 <= mid as int <= 60000000;
        }
        if mid * mid <= n {
            lo = mid;
        } else {
            hi = mid;
        }
    }
    proof {
        assert(is_isqrt(n as int, lo as int));
        lemma_isqrt_spec(n as int);
        lemma_isqrt_unique(n as int, lo as int, isqrt_spec(n as int));
    }
    lo
}

} // verus!
