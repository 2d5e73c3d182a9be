//! Rays: an origin, a direction and a time stamp for motion blur.

use vstd::prelude::*;
use crate::fx::{div_floor, SCALE};
use crate::vec3::{Vec3, bounded};

verus! {

/// Bound on the components of a ray origin and of scene geometry.
pub const CB: i64 = 0x400_0000;

/// Bound on the components of a ray direction (directions are kept near
/// fixed-point unit length, well below this).
pub const DB: i64 = 0x8_0000;

/// The parametric distance standing in for "no upper bound": far beyond any
/// distance reachable inside a scene whose coordinates satisfy `CB`.
pub const T_MAX: i64 = 0x8_0000_0000;

/// The interval start used to avoid re-hitting the surface a ray leaves
/// (about one thousandth of a unit).
pub const T_EPS: i64 = 66;

/// Bound on the components of any point `at(t)` with `|t| <= T_MAX`.
pub const PB: i64 = 0x40_0400_0000;

#[derive(Clone, Copy, Debug)]
pub struct Ray {
    pub origin: Vec3,
    pub direction: Vec3,
    pub time: i64,
}

/// A well-formed ray: origin inside the scene bounds, direction of
/// near-unit magnitude, time inside `[0, 1)` of a unit.
pub open spec fn ray_wf(r: Ray) -> bool {
    &&& bounded(r.origin, CB as int)
    &&& bounded(r.direction, DB as int)
    &&& 0 <= r.time < SCALE
}

/// The point reached after parameter `t`, component-wise
/// `origin + direction * t / SCALE` rounded toward minus infinity.
pub open spec fn ray_at(r: Ray, t: int) -> (int, int, int) {
    (
        r.origin.x + r.direction.x * t / SCALE as int,
        r.origin.y + r.direction.y * t / SCALE as int,
        r.origin.z + r.direction.z * t / SCALE as int,
    )
}

impl Ray {
    pub fn new(origin: Vec3, direction: Vec3) -> (r: Ray)
        ensures
            r.origin == origin,
            r.direction == direction,
            r.time == 0,
    {
        Ray { origin, direction, time: 0 }
    }

    pub fn with_time(origin: Vec3, direction: Vec3, time: i64) -> (r: Ray)
        ensures
            r.origin == origin,
            r.direction == direction,
            r.time == time,
    {
        Ray { origin, direction, time }
    }

    /// Walk the ray to parameter `t`.
    pub fn at(&self, t: i64) -> (p: Vec3)
        requires
            ray_wf(*self),
            -T_MAX <= t <= T_MAX,
        ensures
            (p.x as int, p.y as int, p.z as int) == ray_at(*self, t as int),
            bounded(p, PB as int),
    {
        let x: i64 = at_component(self.origin.x, self.direction.x, t);
        let y: i64 = at_component(self.origin.y, self.direction.y, t);
        let z: i64 = at_component(self.origin.z, self.direction.z, t);
        Vec3 { x, y, z }
    }
}

/// One component of `Ray::at`: `o + d * t / SCALE`.
fn at_component(o: i64, d: i64, t: i64) -> (r: i64)
    requires
        -CB <= o <= CB,
        -DB <= d <= DB,
        -T_MAX <= t <= T_MAX,
    ensures
        r == o + d as int * t as int / SCALE as int,
        -PB <= r <= PB,
{
    proof {
        lemma_step_bound(d as int, t as int);
        vstd::arithmetic::div_mod::lemma_div_is_ordered(
            d as int * t as int,
            DB as int * T_MAX as int,
            SCALE as int,
        );
        vstd::arithmetic::div_mod::lemma_div_is_ordered(
            -(DB as int) * (T_MAX as int),
            d as int * t as int,
            SCALE as int,
        );
        assert(DB as int * T_MAX as int / SCALE as int == 0x40_0000_0000) by (nonlinear_arith);
        assert(-(DB as int) * (T_MAX as int) / SCALE as int == -0x40_0000_0000) by (nonlinear_arith);
        assert(CB + 0x40_0000_0000 == PB);
    }
    let p: i128 = (d as i128) * (t as i128);
    let q: i128 = div_floor(p, SCALE as i128);
    o + (q as i64)
}

proof fn lemma_step_bound(d: int, t: int)
    by (nonlinear_arith)
    requires
        -DB <= d <= DB,
        -T_MAX <= t <= T_MAX,
    ensures
        -(DB as int) * (T_MAX as int) <= d * t <= DB as int * T_MAX as int,
{
}

} // verus!
