//! Three-component fixed-point vectors, used as positions, directions and
//! colors. Every operation states its result exactly over `int`.

use vstd::prelude::*;
use crate::fx::{fx_mul, div_floor, isqrt, sqrt_floor, SCALE, FX_ARG_MAX};

verus! {

/// A vector of three fixed-point scalars.
#[derive(Clone, Copy, Debug, PartialEq, Eq, Structural)]
pub struct Vec3 {
    pub x: i64,
    pub y: i64,
    pub z: i64,
}

/// Component magnitude bound under which dot and cross products stay exact
/// in 64 bits.
pub const VB: i64 = 0x4000_0000;

/// All three components lie in `[-b, b]`.
pub open spec fn bounded(v: Vec3, b: int) -> bool {
    -b <= v.x <= b && -b <= v.y <= b && -b <= v.z <= b
}

/// The mathematical dot product of two vectors' components.
pub open spec fn sdot(a: Vec3, b: Vec3) -> int {
    a.x * b.x + a.y * b.y + a.z * b.z
}

/// The three components of the mathematical cross product.
pub open spec fn scross(a: Vec3, b: Vec3) -> (int, int, int) {
    (a.y * b.z - a.z * b.y, a.z * b.x - a.x * b.z, a.x * b.y - a.y * b.x)
}

/// The rounded-down Euclidean length of a vector of fixed-point components.
pub open spec fn slen(v: Vec3) -> int {
    sqrt_floor(sdot(v, v))
}

/// Component-wise difference, as a triple of integers.
pub open spec fn tsub(a: Vec3, b: Vec3) -> (int, int, int) {
    (a.x - b.x, a.y - b.y, a.z - b.z)
}

/// Dot product of integer triples.
pub open spec fn tdot(a: (int, int, int), b: (int, int, int)) -> int {
    a.0 * b.0 + a.1 * b.1 + a.2 * b.2
}

/// Cross product of integer triples.
pub open spec fn tcross(a: (int, int, int), b: (int, int, int)) -> (int, int, int) {
    (a.1 * b.2 - a.2 * b.1, a.2 * b.0 - a.0 * b.2, a.0 * b.1 - a.1 * b.0)
}

/// The integer triple a vector holds.
pub open spec fn vtup(v: Vec3) -> (int, int, int) {
    (v.x as int, v.y as int, v.z as int)
}

/// Normalization of raw integer components: each scaled by `SCALE` over
/// the rounded-down length of the triple.
pub open spec fn snorm3(p: (int, int, int)) -> (int, int, int) {
    let l = sqrt_floor(p.0 * p.0 + p.1 * p.1 + p.2 * p.2);
    (p.0 * (SCALE as int) / l, p.1 * (SCALE as int) / l, p.2 * (SCALE as int) / l)
}

/// The components of a vector scaled to fixed-point unit length.
pub open spec fn snormalize(v: Vec3) -> (int, int, int) {
    (
        v.x * (SCALE as int) / slen(v),
        v.y * (SCALE as int) / slen(v),
        v.z * (SCALE as int) / slen(v),
    )
}

proof fn lemma_abs_product_bound(a: int, b: int, ma: int, mb: int)
    by (nonlinear_arith)
    requires
        0 <= ma,
        0 <= mb,
        -ma <= a <= ma,
        -mb <= b <= mb,
    ensures
        -(ma * mb) <= a * b <= ma * mb,
{
}

impl Vec3 {
    pub fn new(x: i64, y: i64, z: i64) -> (r: Vec3)
        ensures
            r == (Vec3 { x, y, z }),
    {
        Vec3 { x, y, z }
    }

    pub fn zero() -> (r: Vec3)
        ensures
            r == (Vec3 { x: 0i64, y: 0i64, z: 0i64 }),
    {
        Vec3 { x: 0, y: 0, z: 0 }
    }

    /// One whole unit in every component (the fixed-point image of `(1,1,1)`).
    pub fn one() -> (r: Vec3)
        ensures
            r == (Vec3 { x: SCALE, y: SCALE, z: SCALE }),
    {
        Vec3 { x: SCALE, y: SCALE, z: SCALE }
    }

    pub fn add(self, o: Vec3) -> (r: Vec3)
        requires
            bounded(self, 0x3FFF_FFFF_FFFF_FFFF),
            bounded(o, 0x3FFF_FFFF_FFFF_FFFF),
        ensures
            r.x == self.x + o.x,
            r.y == self.y + o.y,
            r.z == self.z + o.z,
    {
        Vec3 { x: self.x + o.x, y: self.y + o.y, z: self.z + o.z }
    }

    pub fn sub(self, o: Vec3) -> (r: Vec3)
        requires
            bounded(self, 0x3FFF_FFFF_FFFF_FFFF),
            bounded(o, 0x3FFF_FFFF_FFFF_FFFF),
        ensures
            r.x == self.x - o.x,
            r.y == self.y - o.y,
            r.z == self.z - o.z,
    {
        Vec3 { x: self.x - o.x, y: self.y - o.y, z: self.z - o.z }
    }

    pub fn neg(self) -> (r: Vec3)
        requires
            bounded(self, 0x7FFF_FFFF_FFFF_FFFF),
        ensures
            r.x == -self.x,
            r.y == -self.y,
            r.z == -self.z,
    {
        Vec3 { x: -self.x, y: -self.y, z: -self.z }
    }

    /// Scale by a fixed-point factor `k`: each component becomes
    /// `c * k / SCALE`, rounded toward minus infinity.
    pub fn scale(self, k: i64) -> (r: Vec3)
        requires
            bounded(self, FX_ARG_MAX as int),
            -FX_ARG_MAX <= k <= FX_ARG_MAX,
        ensures
            r.x == self.x * k / SCALE as int,
            r.y == self.y * k / SCALE as int,
            r.z == self.z * k / SCALE as int,
    {
        Vec3 { x: fx_mul(self.x, k), y: fx_mul(self.y, k), z: fx_mul(self.z, k) }
    }

    /// Component-wise fixed-point product (color modulation).
    pub fn mul_elem(self, o: Vec3) -> (r: Vec3)
        requires
            bounded(self, FX_ARG_MAX as int),
            bounded(o, FX_ARG_MAX as int),
        ensures
            r.x == self.x * o.x / SCALE as int,
            r.y == self.y * o.y / SCALE as int,
            r.z == self.z * o.z / SCALE as int,
    {
        Vec3 { x: fx_mul(self.x, o.x), y: fx_mul(self.y, o.y), z: fx_mul(self.z, o.z) }
    }

    /// Exact dot product of the raw components (scaled by `SCALE * SCALE`
    /// relative to the real-valued dot product).
    pub fn dot(self, o: Vec3) -> (r: i64)
        requires
            bounded(self, VB as int),
            bounded(o, VB as int),
        ensures
            r == sdot(self, o),
    {
        proof {
            lemma_abs_product_bound(self.x as int, o.x as int, VB as int, VB as int);
            lemma_abs_product_bound(self.y as int, o.y as int, VB as int, VB as int);
            lemma_abs_product_bound(self.z as int, o.z as int, VB as int, VB as int);
        }
        self.x * o.x + self.y * o.y + self.z * o.z
    }

    /// Dot product computed in 128 bits, for operands too large for `dot`.
    pub fn dot_wide(self, o: Vec3) -> (r: i128)
        requires
            bounded(self, 0x4000_0000_0000_0000),
            bounded(o, 0x4000_0000_0000_0000),
        ensures
            r == sdot(self, o),
    {
        proof {
            lemma_abs_product_bound(self.x as int, o.x as int, 0x4000_0000_0000_0000, 0x4000_0000_0000_0000);
            lemma_abs_product_bound(self.y as int, o.y as int, 0x4000_0000_0000_0000, 0x4000_0000_0000_0000);
            lemma_abs_product_bound(self.z as int, o.z as int, 0x4000_0000_0000_0000, 0x4000_0000_0000_0000);
        }
        (self.x as i128) * (o.x as i128) + (self.y as i128) * (o.y as i128)
            + (self.z as i128) * (o.z as i128)
    }

    /// Exact cross product of the raw components (scaled by `SCALE * SCALE`).
    pub fn cross(self, o: Vec3) -> (r: Vec3)
        requires
            bounded(self, VB as int),
            bounded(o, VB as int),
        ensures
            (r.x as int, r.y as int, r.z as int) == scross(self, o),
            bounded(r, 2 * (VB as int) * (VB as int)),
    {
        proof {
            lemma_abs_product_bound(self.y as int, o.z as int, VB as int, VB as int);
            lemma_abs_product_bound(self.z as int, o.y as int, VB as int, VB as int);
            lemma_abs_product_bound(self.z as int, o.x as int, VB as int, VB as int);
            lemma_abs_product_bound(self.x as int, o.z as int, VB as int, VB as int);
            lemma_abs_product_bound(self.x as int, o.y as int, VB as int, VB as int);
            lemma_abs_product_bound(self.y as int, o.x as int, VB as int, VB as int);
        }
        Vec3 {
            x: self.y * o.z - self.z * o.y,
            y: self.z * o.x - self.x * o.z,
            z: self.x * o.y - self.y * o.x,
        }
    }

    /// Squared length of the raw components.
    pub fn length_squared(self) -> (r: i64)
        requires
            bounded(self, VB as int),
        ensures
            r == sdot(self, self),
            r >= 0,
    {
        proof {
            lemma_sq_nonneg(self.x as int);
            lemma_sq_nonneg(self.y as int);
            lemma_sq_nonneg(self.z as int);
        }
        self.dot(self)
    }

    /// Rounded-down length of the raw components (a fixed-point vector of
    /// length `l` world units yields about `l * SCALE`).
    pub fn length(self) -> (r: i64)
        requires
            bounded(self, VB as int),
        ensures
            r == slen(self),
            0 <= r <= 0x1_0000_0000,
            r as int * r as int <= sdot(self, self),
            (r as int + 1) * (r as int + 1) > sdot(self, self),
    {
        let d: i64 = self.length_squared();
        let r: u64 = isqrt(d as u128);
        proof {
            assert(r as int * r as int <= d as int);
            assert(r <= 0x1_0000_0000) by {
                if r > 0x1_0000_0000 {
                    assert(r as int * r as int > 0x1_0000_0000 * 0x1_0000_0000)
                        by (nonlinear_arith)
                        requires
                            r as int > 0x1_0000_0000;
                }
            };
        }
        r as i64
    }

    /// Scale to (fixed-point) unit length: each component becomes
    /// `c * SCALE / slen(self)`, rounded toward minus infinity. The result
    /// is bounded by `SCALE` in every component.
    pub fn normalize(self) -> (r: Vec3)
        requires
            bounded(self, 0x1000_0000_0000_0000),
            sdot(self, self) > 0,
        ensures
            (r.x as int, r.y as int, r.z as int) == snormalize(self),
            r.x == self.x * SCALE as int / slen(self),
            r.y == self.y * SCALE as int / slen(self),
            r.z == self.z * SCALE as int / slen(self),
            bounded(r, SCALE as int),
    {
        proof {
            lemma_sq_nonneg(self.x as int);
            lemma_sq_nonneg(self.y as int);
            lemma_sq_nonneg(self.z as int);
            lemma_abs_product_bound(self.x as int, self.x as int,
                0x1000_0000_0000_0000, 0x1000_0000_0000_0000);
            lemma_abs_product_bound(self.y as int, self.y as int,
                0x1000_0000_0000_0000, 0x1000_0000_0000_0000);
            lemma_abs_product_bound(self.z as int, self.z as int,
                0x1000_0000_0000_0000, 0x1000_0000_0000_0000);
        }
        let d: i128 = self.dot_wide(self);
        let lu: u64 = isqrt(d as u128);
        proof {
            crate::fx::lemma_sqrt_floor_unique(d as int, lu as int);
            assert(lu as int <= 0x2000_0000_0000_0000) by {
                if lu as int > 0x2000_0000_0000_0000 {
                    assert(lu as int * lu as int
                        > 0x2000_0000_0000_0000 * 0x2000_0000_0000_0000) by (nonlinear_arith)
                        requires
                            lu as int > 0x2000_0000_0000_0000;
                    assert(3 * (0x1000_0000_0000_0000 * 0x1000_0000_0000_0000)
                        < 0x2000_0000_0000_0000 * 0x2000_0000_0000_0000) by (nonlinear_arith);
                }
            };
        }
        let len: i64 = lu as i64;
        proof {
            if len == 0 {
                assert(sdot(self, self) < 1) by (nonlinear_arith)
                    requires
                        (len as int + 1) * (len as int + 1) > sdot(self, self),
                        len == 0;
            }
            lemma_component_le_len(self.x as int, sdot(self, self) - self.x * self.x, len as int);
            lemma_component_le_len(self.y as int, sdot(self, self) - self.y * self.y, len as int);
            lemma_component_le_len(self.z as int, sdot(self, self) - self.z * self.z, len as int);
        }
        let x: i64 = norm_component(self.x, len);
        let y: i64 = norm_component(self.y, len);
        let z: i64 = norm_component(self.z, len);
        Vec3 { x, y, z }
    }
}

/// A normalized nonzero vector has a positive squared length.
pub proof fn lemma_normalize_nonzero(v: Vec3, n: Vec3)
    requires
        sdot(v, v) > 0,
        bounded(v, 0x1000_0000_0000_0000),
        (n.x as int, n.y as int, n.z as int) == snormalize(v),
    ensures
        sdot(n, n) > 0,
{
    crate::fx::lemma_sqrt_floor(sdot(v, v));
    let l = slen(v);
    assert(l >= 1) by {
        if l == 0 {
            assert((l + 1) * (l + 1) == 1) by (nonlinear_arith)
                requires
                    l == 0;
        }
    };
    if sdot(n, n) <= 0 {
        assert(n.x == 0 && n.y == 0 && n.z == 0) by (nonlinear_arith)
            requires
                sdot(n, n) <= 0;
        lemma_zero_quotient_small(v.x as int, l);
        lemma_zero_quotient_small(v.y as int, l);
        lemma_zero_quotient_small(v.z as int, l);
        assert(sdot(v, v) < l * l) by (nonlinear_arith)
            requires
                l >= 1,
                -l < v.x as int * (SCALE as int) < l,
                -l < v.y as int * (SCALE as int) < l,
                -l < v.z as int * (SCALE as int) < l;
        assert(l * l <= sdot(v, v));
    }
}

/// If `a * SCALE / l == 0` with `l >= 1`, then `|a * SCALE| < l`.
proof fn lemma_zero_quotient_small(a: int, l: int)
    requires
        l >= 1,
        a * (SCALE as int) / l == 0,
    ensures
        -l < a * (SCALE as int) < l,
{
    vstd::arithmetic::div_mod::lemma_fundamental_div_mod(a * (SCALE as int), l);
    vstd::arithmetic::div_mod::lemma_mod_bound(a * (SCALE as int), l);
}

proof fn lemma_sq_nonneg(a: int)
    by (nonlinear_arith)
    ensures
        a * a >= 0,
{
}

/// If `c * c + rest <= len * len + 2 * len` with `rest >= 0`, then `|c| <= len`.
proof fn lemma_component_le_len(c: int, rest: int, len: int)
    by (nonlinear_arith)
    requires
        len >= 0,
        rest >= 0,
        c * c + rest < (len + 1) * (len + 1),
    ensures
        -len <= c <= len,
{
}

/// One normalized component: `c * SCALE / len`, rounded toward minus
/// infinity; bounded by `SCALE` when `|c| <= len`.
fn norm_component(c: i64, len: i64) -> (r: i64)
    requires
        len > 0,
        -len <= c <= len,
        len <= 0x2000_0000_0000_0000,
    ensures
        r == c as int * SCALE as int / len as int,
        -SCALE <= r <= SCALE,
{
    proof {
        lemma_abs_product_bound(c as int, SCALE as int, len as int, SCALE as int);
        vstd::arithmetic::div_mod::lemma_div_is_ordered(
            c as int * SCALE as int,
            len as int * SCALE as int,
            len as int,
        );
        vstd::arithmetic::div_mod::lemma_div_is_ordered(
            -(len as int * SCALE as int),
            c as int * SCALE as int,
            len as int,
        );
        vstd::arithmetic::div_mod::lemma_div_multiples_vanish(SCALE as int, len as int);
        assert(len as int * SCALE as int == SCALE as int * len as int)
            by (nonlinear_arith);
        assert(-(len as int * SCALE as int) == (-SCALE as int) * len as int)
            by (nonlinear_arith);
        vstd::arithmetic::div_mod::lemma_div_multiples_vanish(-SCALE as int, len as int);
    }
    let p: i128 = (c as i128) * (SCALE as i128);
    let q: i128 = div_floor(p, len as i128);
    q as i64
}

} // verus!
