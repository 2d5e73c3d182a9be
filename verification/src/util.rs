//! Random sampling helpers. The single entry point into the random number
//! generator is `rand_below`; everything else is verified against whatever
//! value it hands back.

use vstd::prelude::*;
use crate::fx::SCALE;
use crate::vec3::{Vec3, bounded, sdot, snormalize};

verus! {

/// Relies on rand::random_range on `0..n`: the result is drawn from the
/// thread-local generator and lies in the range. Nothing is claimed about
/// its distribution.
#[verifier::external_body]
pub(crate) fn rand_below(n: u64) -> (r: u64)
    requires
        n > 0,
    ensures
        r < n,
{
    rand::random_range(0..n)
}

/// A fixed-point sample in `[0, 1)` of a unit.
pub fn random_fx_unit() -> (r: i64)
    ensures
        0 <= r < SCALE,
{
    rand_below(SCALE as u64) as i64
}

/// A fixed-point sample in `[min, max)`.
pub fn random_fx_in_range(min: i64, max: i64) -> (r: i64)
    requires
        -0x1000_0000_0000 <= min < max <= 0x1000_0000_0000,
    ensures
        min <= r < max,
{
    let span: u64 = (max - min) as u64;
    min + rand_below(span) as i64
}

/// A vector whose components are each drawn from `[0, 1)` of a unit.
pub fn random_vec3() -> (r: Vec3)
    ensures
        bounded(r, SCALE as int),
{
    Vec3 { x: random_fx_unit(), y: random_fx_unit(), z: random_fx_unit() }
}

/// A vector whose components are each drawn from `[min, max)`.
pub fn random_vec3_in_range(min: i64, max: i64) -> (r: Vec3)
    requires
        -0x1000_0000_0000 <= min < max <= 0x1000_0000_0000,
    ensures
        bounded(r, if -min > max { -min as int } else { max as int }),
{
    Vec3 {
        x: random_fx_in_range(min, max),
        y: random_fx_in_range(min, max),
        z: random_fx_in_range(min, max),
    }
}

/// A nonzero vector inside the unit ball, by rejection sampling with a
/// deterministic fallback after a bounded number of attempts.
fn random_in_unit_sphere() -> (r: Vec3)
    ensures
        bounded(r, SCALE as int),
        0 < sdot(r, r) <= SCALE as int * SCALE as int,
{
    let mut tries: u32 = 0;
    while tries < 64
        invariant
            tries <= 64,
        decreases 64 - tries,
    {
        let v: Vec3 = random_vec3_in_range(-SCALE, SCALE);
        let d: i64 = v.length_squared();
        proof {
            assert(SCALE as int * SCALE as int == 0x1_0000_0000) by (nonlinear_arith);
        }
        if 0 < d && d <= 0x1_0000_0000 {
            return v;
        }
        tries = tries + 1;
    }
    proof {
        assert(
            sdot((Vec3 { x: 32768i64, y: 32768i64, z: 32768i64 }),
                (Vec3 { x: 32768i64, y: 32768i64, z: 32768i64 }))
            == 3 * (32768 * 32768));
        assert(3 * (32768 * 32768) <= SCALE as int * SCALE as int) by (nonlinear_arith);
    }
    Vec3 { x: 32768, y: 32768, z: 32768 }
}

/// The direction is the normalization of some nonzero draw from the unit
/// ball.
pub open spec fn unit_sample_rel(r: Vec3) -> bool {
    exists|v: Vec3|
        0 < sdot(v, v) <= (SCALE as int) * (SCALE as int) && (r.x as int, r.y as int, r.z as int)
            == #[trigger] snormalize(v)
}

/// A random direction of fixed-point unit length (up to rounding).
pub fn random_unit_vector() -> (r: Vec3)
    ensures
        bounded(r, SCALE as int),
        unit_sample_rel(r),
{
    let v: Vec3 = random_in_unit_sphere();
    let r: Vec3 = v.normalize();
    proof {
        assert((r.x as int, r.y as int, r.z as int) == snormalize(v));
    }
    r
}

/// A random near-unit direction on the same side as `normal`.
pub fn random_on_hemisphere(normal: &Vec3) -> (r: Vec3)
    requires
        bounded(*normal, 0x4000_0000),
    ensures
        bounded(r, SCALE as int),
        sdot(*normal, r) >= 0,
{
    let v: Vec3 = random_unit_vector();
    if normal.dot(v) < 0 {
        proof {
            lemma_neg_dot(*normal, v);
        }
        v.neg()
    } else {
        v
    }
}

proof fn lemma_neg_dot(a: Vec3, b: Vec3)
    by (nonlinear_arith)
    requires
        bounded(b, 0x7FFF_FFFF_FFFF_FFFF),
    ensures
        sdot(a, Vec3 { x: -b.x as i64, y: -b.y as i64, z: -b.z as i64 }) == -sdot(a, b),
{
}

/// A random direction drawn with a cosine-weighted density about the `+z`
/// axis: a unit offset added to the pole, then normalized.
pub fn random_cosine_direction() -> (r: Vec3)
    ensures
        bounded(r, SCALE as int),
        r.z >= 0,
{
    let u: Vec3 = random_unit_vector();
    let pole: Vec3 = Vec3 { x: 0, y: 0, z: SCALE };
    let sum: Vec3 = pole.add(u);
    let d: i64 = sum.length_squared();
    if d == 0 {
        Vec3 { x: 0, y: 0, z: SCALE }
    } else {
        proof {
            crate::fx::lemma_sqrt_floor(sdot(sum, sum));
            assert(crate::vec3::slen(sum) > 0) by {
                if crate::vec3::slen(sum) == 0 {
                    assert((crate::vec3::slen(sum) + 1) * (crate::vec3::slen(sum) + 1) == 1)
                        by (nonlinear_arith)
                        requires
                            crate::vec3::slen(sum) == 0;
                }
            };
        }
        let r: Vec3 = sum.normalize();
        proof {
            vstd::arithmetic::mul::lemma_mul_nonnegative(sum.z as int, SCALE as int);
            vstd::arithmetic::div_mod::lemma_div_pos_is_pos(
                sum.z as int * SCALE as int,
                crate::vec3::slen(sum),
            );
        }
        r
    }
}

/// Whether every component is within a few fixed-point steps of zero.
pub fn near_zero(vec: Vec3) -> (r: bool)
    ensures
        r == (-256 < vec.x < 256 && -256 < vec.y < 256 && -256 < vec.z < 256),
{
    -256 < vec.x && vec.x < 256 && -256 < vec.y && vec.y < 256 && -256 < vec.z && vec.z < 256
}

/// A nonzero vector inside the unit disk of the `xy` plane, by rejection
/// sampling with a deterministic fallback after a bounded number of attempts.
pub fn random_in_unit_disk() -> (r: Vec3)
    ensures
        bounded(r, SCALE as int),
        0 < sdot(r, r) <= SCALE as int * SCALE as int,
        r.z == 0,
{
    let mut tries: u32 = 0;
    while tries < 64
        invariant
            tries <= 64,
        decreases 64 - tries,
    {
        let v: Vec3 = Vec3 {
            x: random_fx_in_range(-SCALE, SCALE),
            y: random_fx_in_range(-SCALE, SCALE),
            z: 0,
        };
        let d: i64 = v.length_squared();
        proof {
            assert(SCALE as int * SCALE as int == 0x1_0000_0000) by (nonlinear_arith);
        }
        if 0 < d && d < 0x1_0000_0000 {
            proof {
                assert(SCALE as int * SCALE as int == 0x1_0000_0000) by (nonlinear_arith);
            }
            return v;
        }
        tries = tries + 1;
    }
    proof {
        assert(
            sdot((Vec3 { x: 32768i64, y: 32768i64, z: 0i64 }),
                (Vec3 { x: 32768i64, y: 32768i64, z: 0i64 }))
            == 2 * (32768 * 32768));
        assert(0 < 2 * (32768 * 32768) <= SCALE as int * SCALE as int) by (nonlinear_arith);
    }
    Vec3 { x: 32768, y: 32768, z: 0 }
}

} // verus!
