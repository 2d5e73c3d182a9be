//! Fixed-point scalars.
//!
//! Every scalar quantity in this crate (coordinates, directions, colors,
//! probability densities, parametric ray distances) is an `i64` counting
//! steps of `1 / SCALE` of a world unit. All arithmetic on them is exact
//! integer arithmetic, so every contract below is stated over `int`.

use vstd::prelude::*;

verus! {

/// Number of fixed-point steps per unit. A value `v: i64` stands for the
/// real number `v / SCALE`.
pub const SCALE: i64 = 65536;

/// `pi` in fixed-point steps (rounded to nearest).
pub const PI_FX: i64 = 205887;

/// Magnitude bound accepted by the fixed-point multiplier.
pub const FX_ARG_MAX: i64 = 0x80_0000_0000;

/// For `m >= 0, d > 0`: `-((m + d - 1) / d) == (-m) / d` (spec division is
/// Euclidean, so this is the floor of the exact quotient `-m / d`).
proof fn lemma_neg_ceil_div(m: int, d: int)
    requires
        m >= 0,
        d > 0,
    ensures
        -((m + d - 1) / d) == (-m) / d,
{
    let q = (m + d - 1) / d;
    vstd::arithmetic::div_mod::lemma_fundamental_div_mod(m + d - 1, d);
    let r = (m + d - 1) % d;
    assert(-m == (-q) * d + (d - 1 - r)) by (nonlinear_arith)
        requires
            m + d - 1 == d * q + r;
    vstd::arithmetic::div_mod::lemma_fundamental_div_mod_converse(-m, d, -q, d - 1 - r);
}

/// Floor division of `n` by a positive `d`, as the spec-level Euclidean `/`.
pub fn div_floor(n: i128, d: i128) -> (q: i128)
    requires
        d > 0,
        -0x4000_0000_0000_0000_0000_0000_0000_0000 <= n,
    ensures
        q == n as int / d as int,
        n >= 0 ==> 0 <= q <= n,
{
    if n >= 0 {
        let nu: u128 = n as u128;
        let du: u128 = d as u128;
        let qu: u128 = nu / du;
        proof {
            assert(nu as int == n as int);
            assert(du as int == d as int);
            assert(qu as int == n as int / d as int);
            vstd::arithmetic::div_mod::lemma_div_is_ordered(0, n as int, d as int);
            vstd::arithmetic::div_mod::lemma_div_basics(n as int);
            vstd::arithmetic::div_mod::lemma_div_is_ordered_by_denominator(n as int, 1, d as int);
        }
        qu as i128
    } else {
        let m: u128 = (-n) as u128;
        let du: u128 = d as u128;
        // floor(n / d) == -ceil(-n / d)
        let s: u128 = m + (du - 1);
        let qm: u128 = s / du;
        proof {
            lemma_neg_ceil_div((-n) as int, d as int);
            assert(qm as int == s as int / du as int);
            vstd::arithmetic::div_mod::lemma_div_is_ordered(s as int, m as int + du as int, d as int);
            vstd::arithmetic::div_mod::lemma_div_plus_one(m as int, d as int);
            vstd::arithmetic::div_mod::lemma_div_is_ordered(0, m as int, d as int);
            vstd::arithmetic::div_mod::lemma_div_basics(m as int);
            vstd::arithmetic::div_mod::lemma_div_is_ordered_by_denominator(m as int, 1, d as int);
            assert(qm as int <= 1 + m as int);
        }
        -(qm as i128)
    }
}

/// `|a| <= ma && |b| <= mb ==> |a * b| <= ma * mb`.
proof fn lemma_mul_bound(a: int, b: int, ma: int, mb: int)
    by (nonlinear_arith)
    requires
        0 <= ma,
        0 <= mb,
        -ma <= a <= ma,
        -mb <= b <= mb,
    ensures
        -(ma * mb) <= a * b <= ma * mb,
{
}

/// Fixed-point product: `(a * b) / SCALE`, rounded toward minus infinity.
pub fn fx_mul(a: i64, b: i64) -> (r: i64)
    requires
        -FX_ARG_MAX <= a <= FX_ARG_MAX,
        -FX_ARG_MAX <= b <= FX_ARG_MAX,
    ensures
        r == a as int * b as int / SCALE as int,
        a >= 0 && b >= 0 ==> 0 <= r <= a as int * b as int,
{
    proof {
        lemma_mul_bound(a as int, b as int, FX_ARG_MAX as int, FX_ARG_MAX as int);
        if a >= 0 && b >= 0 {
            vstd::arithmetic::mul::lemma_mul_nonnegative(a as int, b as int);
        }
    }
    let p: i128 = (a as i128) * (b as i128);
    let q: i128 = div_floor(p, SCALE as i128);
    proof {
        if p >= 0 {
            vstd::arithmetic::div_mod::lemma_div_is_ordered(0, p as int, SCALE as int);
        } else {
            vstd::arithmetic::div_mod::lemma_div_is_ordered(p as int, 0, SCALE as int);
            vstd::arithmetic::div_mod::lemma_div_basics_1(SCALE as int);
        }
    }
    q as i64
}

/// Fixed-point quotient: `(a * SCALE) / d` for positive `d`, rounded toward
/// minus infinity. The caller must show the quotient fits the argument range.
pub fn fx_div(a: i64, d: i64) -> (r: i64)
    requires
        d > 0,
        -FX_ARG_MAX <= a <= FX_ARG_MAX,
        -FX_ARG_MAX <= a as int * SCALE as int / d as int <= FX_ARG_MAX,
    ensures
        r == a as int * SCALE as int / d as int,
{
    proof {
        lemma_mul_bound(a as int, SCALE as int, FX_ARG_MAX as int, SCALE as int);
    }
    let p: i128 = (a as i128) * (SCALE as i128);
    let q: i128 = div_floor(p, d as i128);
    q as i64
}

/// The fixed-point product at the spec level: `a * b / SCALE`, rounded
/// toward minus infinity (spec `/` is Euclidean and `SCALE > 0`).
pub open spec fn fxm(a: int, b: int) -> int {
    a * b / (SCALE as int)
}

/// Dividing a value of magnitude at most `m * SCALE` by the scale yields a
/// value of magnitude at most `m`.
pub proof fn lemma_div_scale_bound(n: int, m: int)
    requires
        m >= 0,
        -m * (SCALE as int) <= n <= m * (SCALE as int),
    ensures
        -m <= n / (SCALE as int) <= m,
{
    vstd::arithmetic::div_mod::lemma_div_is_ordered(n, m * (SCALE as int), SCALE as int);
    vstd::arithmetic::div_mod::lemma_div_is_ordered(-m * (SCALE as int), n, SCALE as int);
    assert(m * (SCALE as int) == (SCALE as int) * m) by (nonlinear_arith);
    assert(-m * (SCALE as int) == (SCALE as int) * (-m)) by (nonlinear_arith);
    vstd::arithmetic::div_mod::lemma_div_multiples_vanish(m, SCALE as int);
    vstd::arithmetic::div_mod::lemma_div_multiples_vanish(-m, SCALE as int);
}

/// Bounds for a fixed-point texel product: `|c| <= FX_ARG_MAX` and
/// `1 <= n <= 0x10000` keep `c * n` and its scaled quotient in range.
pub proof fn lemma_fx_texel_bound(c: int, n: int)
    requires
        -FX_ARG_MAX <= c <= FX_ARG_MAX,
        1 <= n <= 0x10000,
    ensures
        -(0x80_0000_0000 * 0x10000) <= c * n <= 0x80_0000_0000 * 0x10000,
        -0x80_0000_0000 <= c * n / (SCALE as int) <= 0x80_0000_0000,
{
    assert(-(0x80_0000_0000 * 0x10000) <= c * n <= 0x80_0000_0000 * 0x10000)
        by (nonlinear_arith)
        requires
            -FX_ARG_MAX <= c <= FX_ARG_MAX,
            1 <= n <= 0x10000;
    assert(0x80_0000_0000 * 0x10000 == 0x80_0000_0000 * (SCALE as int));
    lemma_div_scale_bound(c * n, 0x80_0000_0000);
}

/// Euclidean division by a positive divisor never increases magnitude.
pub proof fn lemma_div_mag(n: int, d: int)
    requires
        d >= 1,
    ensures
        n >= 0 ==> 0 <= n / d <= n,
        n < 0 ==> n <= n / d <= 0,
{
    vstd::arithmetic::div_mod::lemma_fundamental_div_mod(n, d);
    vstd::arithmetic::div_mod::lemma_mod_bound(n, d);
    let q = n / d;
    let r = n % d;
    if n >= 0 {
        vstd::arithmetic::div_mod::lemma_div_is_ordered(0, n, d);
        assert(q <= n) by (nonlinear_arith)
            requires
                n == d * q + r,
                0 <= r < d,
                q >= 0,
                d >= 1;
    } else {
        assert(q < 0 || q == 0) by {
            if q > 0 {
                assert(d * q + r > 0) by (nonlinear_arith)
                    requires
                        q >= 1,
                        d >= 1,
                        r >= 0;
            }
        };
        assert(n <= q) by (nonlinear_arith)
            requires
                n == d * q + r,
                0 <= r < d,
                q <= 0,
                n < 0,
                d >= 1;
    }
}

/// Euclidean remainder: the unique `r` in `[0, m)` with `a == m * q + r`.
pub fn mod_floor(a: i64, m: i64) -> (r: i64)
    requires
        m > 0,
        -0x7FFF_FFFF_FFFF_FFFE <= a,
    ensures
        r == a as int % m as int,
        0 <= r < m,
{
    proof {
        vstd::arithmetic::div_mod::lemma_mod_bound(a as int, m as int);
    }
    if a >= 0 {
        let r: u64 = (a as u64) % (m as u64);
        r as i64
    } else {
        let k: u64 = ((-a) as u64) % (m as u64);
        proof {
            vstd::arithmetic::div_mod::lemma_mod_bound((-a) as int, m as int);
            vstd::arithmetic::div_mod::lemma_fundamental_div_mod((-a) as int, m as int);
            let q = (-a) as int / m as int;
            if k == 0 {
                assert(a as int == (-q) * (m as int) + 0) by (nonlinear_arith)
                    requires
                        (-a) as int == (m as int) * q + k as int,
                        k == 0;
                vstd::arithmetic::div_mod::lemma_fundamental_div_mod_converse_mod(
                    a as int, m as int, -q, 0);
            } else {
                assert(a as int == (-q - 1) * (m as int) + (m as int - k as int))
                    by (nonlinear_arith)
                    requires
                        (-a) as int == (m as int) * q + k as int;
                vstd::arithmetic::div_mod::lemma_fundamental_div_mod_converse_mod(
                    a as int, m as int, -q - 1, m as int - k as int);
            }
        }
        if k == 0 {
            0
        } else {
            m - (k as i64)
        }
    }
}

/// The rounded-down square root of an integer, as a mathematical function.
pub open spec fn sqrt_floor(x: int) -> int
    decreases x,
{
    if x <= 0 {
        0
    } else {
        let s = sqrt_floor(x - 1);
        if (s + 1) * (s + 1) <= x {
            s + 1
        } else {
            s
        }
    }
}

/// `sqrt_floor(x)` is the greatest integer whose square is at most `x`.
pub proof fn lemma_sqrt_floor(x: int)
    requires
        x >= 0,
    ensures
        sqrt_floor(x) >= 0,
        sqrt_floor(x) * sqrt_floor(x) <= x,
        (sqrt_floor(x) + 1) * (sqrt_floor(x) + 1) > x,
    decreases x,
{
    if x > 0 {
        lemma_sqrt_floor(x - 1);
        let s = sqrt_floor(x - 1);
        assert(s * s <= x - 1 < x);
        if (s + 1) * (s + 1) <= x {
            assert((s + 2) * (s + 2) > x) by (nonlinear_arith)
                requires
                    x - 1 < (s + 1) * (s + 1),
                    s >= 0;
        }
    }
}

/// Any `r` with `r * r <= x < (r + 1) * (r + 1)` equals `sqrt_floor(x)`.
pub proof fn lemma_sqrt_floor_unique(x: int, r: int)
    requires
        x >= 0,
        r >= 0,
        r * r <= x,
        (r + 1) * (r + 1) > x,
    ensures
        r == sqrt_floor(x),
{
    lemma_sqrt_floor(x);
    let s = sqrt_floor(x);
    if r < s {
        assert((r + 1) * (r + 1) <= s * s) by (nonlinear_arith)
            requires
                0 <= r,
                r + 1 <= s;
    }
    if s < r {
        assert((s + 1) * (s + 1) <= r * r) by (nonlinear_arith)
            requires
                0 <= s,
                s + 1 <= r;
    }
}

/// Integer square root: the greatest `r` with `r * r <= x`.
pub fn isqrt(x: u128) -> (r: u64)
    requires
        x < 0x4000_0000_0000_0000_0000_0000_0000_0000,
    ensures
        r as int * r as int <= x,
        (r as int + 1) * (r as int + 1) > x,
        r == sqrt_floor(x as int),
{
    proof {
        lemma_sqrt_floor(x as int);
    }
    let mut lo: u64 = 0;
    let mut hi: u64 = 0x8000_0000_0000_0000;
    proof {
        assert((0x8000_0000_0000_0000 as int) * (0x8000_0000_0000_0000 as int)
            == 0x4000_0000_0000_0000_0000_0000_0000_0000) by (nonlinear_arith);
    }
    while lo + 1 < hi
        invariant
            lo < hi,
            hi <= 0x8000_0000_0000_0000,
            lo as int * lo as int <= x,
            hi as int * hi as int > x,
        decreases hi - lo,
    {
        let mid: u64 = lo + (hi - lo) / 2;
        proof {
            assert((mid as int) * (mid as int) < 0x4000_0000_0000_0000_0000_0000_0000_0000)
                by (nonlinear_arith)
                requires
                    0 <= (mid as int) < 0x8000_0000_0000_0000;
        }
        let sq: u128 = (mid as u128) * (mid as u128);
        if sq <= x {
            lo = mid;
        } else {
            hi = mid;
        }
    }
    proof {
        lemma_sqrt_floor_unique(x as int, lo as int);
    }
    lo
}

/// Fixed-point square root of a non-negative fixed-point value:
/// the greatest `r` with `r * r <= v * SCALE` (so `r` is the fixed-point
/// representation of the rounded-down square root of the value `v` stands
/// for).
pub fn fx_sqrt(v: i64) -> (r: i64)
    requires
        v >= 0,
    ensures
        r >= 0,
        r as int * r as int <= v as int * SCALE as int,
        (r as int + 1) * (r as int + 1) > v as int * SCALE as int,
        r == sqrt_floor(v as int * SCALE as int),
        v <= SCALE ==> r <= SCALE,
        r < 0x1_0000_0000_0000,
{
    proof {
        assert((v as int) * (SCALE as int) < 0x4000_0000_0000_0000_0000_0000_0000_0000)
            by (nonlinear_arith)
            requires
                0 <= (v as int) < 0x8000_0000_0000_0000;
        vstd::arithmetic::mul::lemma_mul_nonnegative(v as int, SCALE as int);
    }
    let p: u128 = (v as u128) * (SCALE as u128);
    let r: u64 = isqrt(p);
    proof {
        if v <= SCALE && r as int > SCALE as int {
            assert(r as int * r as int > v as int * SCALE as int) by (nonlinear_arith)
                requires
                    r as int > SCALE as int,
                    0 <= v as int <= SCALE as int;
        }
        if r as int >= 0x1_0000_0000_0000 {
            assert(r as int * r as int >= 0x1_0000_0000_0000 * 0x1_0000_0000_0000)
                by (nonlinear_arith)
                requires
                    r as int >= 0x1_0000_0000_0000;
            assert((v as int) * (SCALE as int) < 0x1_0000_0000_0000 * 0x1_0000_0000_0000)
                by (nonlinear_arith)
                requires
                    0 <= (v as int) < 0x8000_0000_0000_0000;
        }
    }
    r as i64
}

} // verus!
