//! The camera: maps continuous pixel coordinates to world rays, with an
//! optional lens disk for depth of field and a random time stamp for motion
//! blur. Resolving high-level parameters (field of view, aspect ratio) into
//! the viewport basis happens outside the library; the camera itself only
//! turns that basis into rays.

use vstd::prelude::*;
use crate::fx::{div_floor, SCALE};
use crate::ray::{Ray, ray_wf, CB};
use crate::util::{random_fx_unit, random_in_unit_disk};
use crate::vec3::{Vec3, bounded, sdot};

verus! {

/// Bound on camera anchor points (half the scene bound, so viewport sums
/// stay inside it).
pub const CAMB: i64 = 0x100_0000;

/// Bound on one pixel's viewport step.
pub const DELTAB: i64 = 0x1000;

/// Bound on a pixel coordinate in fixed-point pixels.
pub const PIXB: i64 = 0x1000_0000;

pub struct Camera {
    pub position: Vec3,
    pub upper_left: Vec3,
    pub delta_u: Vec3,
    pub delta_v: Vec3,
    pub defocus_disk_u: Vec3,
    pub defocus_disk_v: Vec3,
    pub has_defocus: bool,
    pub image_width: u32,
    pub image_height: u32,
}

pub open spec fn camera_wf(c: Camera) -> bool {
    &&& bounded(c.position, CAMB as int)
    &&& bounded(c.upper_left, CAMB as int)
    &&& bounded(c.delta_u, DELTAB as int)
    &&& bounded(c.delta_v, DELTAB as int)
    &&& bounded(c.defocus_disk_u, SCALE as int)
    &&& bounded(c.defocus_disk_v, SCALE as int)
    &&& 1 <= c.image_width <= 4096
    &&& 1 <= c.image_height <= 4096
}

/// The point of the viewport a fixed-point pixel coordinate addresses:
/// `upper_left + delta_u * u - delta_v * v`, each step scaled down once.
pub open spec fn viewport_point(c: Camera, u: int, v: int) -> (int, int, int) {
    (
        c.upper_left.x + crate::fx::fxm(c.delta_u.x as int, u) - crate::fx::fxm(
            c.delta_v.x as int,
            v,
        ),
        c.upper_left.y + crate::fx::fxm(c.delta_u.y as int, u) - crate::fx::fxm(
            c.delta_v.y as int,
            v,
        ),
        c.upper_left.z + crate::fx::fxm(c.delta_u.z as int, u) - crate::fx::fxm(
            c.delta_v.z as int,
            v,
        ),
    )
}

impl Camera {
    /// Assemble a camera from an already resolved viewport basis.
    pub fn new(
        position: Vec3,
        upper_left: Vec3,
        delta_u: Vec3,
        delta_v: Vec3,
        defocus_disk_u: Vec3,
        defocus_disk_v: Vec3,
        has_defocus: bool,
        image_width: u32,
        image_height: u32,
    ) -> (r: Camera)
        requires
            bounded(position, CAMB as int),
            bounded(upper_left, CAMB as int),
            bounded(delta_u, DELTAB as int),
            bounded(delta_v, DELTAB as int),
            bounded(defocus_disk_u, SCALE as int),
            bounded(defocus_disk_v, SCALE as int),
            1 <= image_width <= 4096,
            1 <= image_height <= 4096,
        ensures
            camera_wf(r),
            r.position == position,
            r.upper_left == upper_left,
            r.delta_u == delta_u,
            r.delta_v == delta_v,
            r.has_defocus == has_defocus,
            r.image_width == image_width,
            r.image_height == image_height,
    {
        Camera {
            position,
            upper_left,
            delta_u,
            delta_v,
            defocus_disk_u,
            defocus_disk_v,
            has_defocus,
            image_width,
            image_height,
        }
    }

    /// The ray for a continuous pixel coordinate (fixed-point pixels). A
    /// pinhole camera shoots from its position toward the viewport point;
    /// with a lens, the origin is jittered over the defocus disk. Every ray
    /// gets a fresh time stamp in `[0, 1)` of a unit.
    pub fn get_ray(&self, u: i64, v: i64) -> (r: Ray)
        requires
            camera_wf(*self),
            0 <= u <= PIXB,
            0 <= v <= PIXB,
        ensures
            ray_wf(r),
            self.has_defocus ==> exists|dx: int, dy: int|
                -SCALE <= dx <= SCALE && -SCALE <= dy <= SCALE && dx * dx + dy * dy <= (
                SCALE as int) * (SCALE as int) && {
                    &&& r.origin.x == self.position.x + crate::fx::fxm(
                        self.defocus_disk_u.x as int,
                        dx,
                    ) + crate::fx::fxm(self.defocus_disk_v.x as int, dy)
                    &&& r.origin.y == self.position.y + crate::fx::fxm(
                        self.defocus_disk_u.y as int,
                        dx,
                    ) + crate::fx::fxm(self.defocus_disk_v.y as int, dy)
                    &&& r.origin.z == self.position.z + crate::fx::fxm(
                        self.defocus_disk_u.z as int,
                        dx,
                    ) + crate::fx::fxm(self.defocus_disk_v.z as int, dy)
                },
            !self.has_defocus ==> r.origin == self.position,
            ({
                let vp = viewport_point(*self, u as int, v as int);
                let diff = (vp.0 - r.origin.x, vp.1 - r.origin.y, vp.2 - r.origin.z);
                if diff.0 == 0 && diff.1 == 0 && diff.2 == 0 {
                    r.direction == (Vec3 { x: 0i64, y: 0i64, z: (-SCALE) as i64 })
                } else {
                    crate::vec3::vtup(r.direction) == crate::vec3::snorm3(diff)
                }
            }),
    {
        let origin: Vec3 = if self.has_defocus {
            self.defocus_disk_sample()
        } else {
            self.position
        };
        let vx: i64 = viewport_component(self.upper_left.x, self.delta_u.x, self.delta_v.x, u, v);
        let vy: i64 = viewport_component(self.upper_left.y, self.delta_u.y, self.delta_v.y, u, v);
        let vz: i64 = viewport_component(self.upper_left.z, self.delta_u.z, self.delta_v.z, u, v);
        let vp: Vec3 = Vec3 { x: vx, y: vy, z: vz };
        let raw: Vec3 = vp.sub(origin);
        let dir: Vec3 = if raw.length_squared() == 0 {
            proof {
                assert(raw.x == 0 && raw.y == 0 && raw.z == 0) by (nonlinear_arith)
                    requires
                        sdot(raw, raw) == 0;
            }
            // degenerate aim: shoot straight down the default axis
            Vec3 { x: 0, y: 0, z: -SCALE }
        } else {
            proof {
                lemma_sq_sum_nonneg(raw);
                assert(!(raw.x == 0 && raw.y == 0 && raw.z == 0)) by {
                    if raw.x == 0 && raw.y == 0 && raw.z == 0 {
                        vstd::arithmetic::mul::lemma_mul_by_zero_is_zero(0);
                        assert(sdot(raw, raw) == 0) by (nonlinear_arith)
                            requires
                                raw.x == 0 && raw.y == 0 && raw.z == 0;
                    }
                };
            }
            raw.normalize()
        };
        Ray::with_time(origin, dir, random_fx_unit())
    }

    /// A point of the lens disk around the camera position: the two disk
    /// axes scaled by a draw from the unit disk.
    fn defocus_disk_sample(&self) -> (p: Vec3)
        requires
            camera_wf(*self),
        ensures
            bounded(p, CB as int),
            exists|dx: int, dy: int|
                -SCALE <= dx <= SCALE && -SCALE <= dy <= SCALE && dx * dx + dy * dy <= (
                SCALE as int) * (SCALE as int) && {
                    &&& p.x == self.position.x + crate::fx::fxm(self.defocus_disk_u.x as int, dx)
                        + crate::fx::fxm(self.defocus_disk_v.x as int, dy)
                    &&& p.y == self.position.y + crate::fx::fxm(self.defocus_disk_u.y as int, dx)
                        + crate::fx::fxm(self.defocus_disk_v.y as int, dy)
                    &&& p.z == self.position.z + crate::fx::fxm(self.defocus_disk_u.z as int, dx)
                        + crate::fx::fxm(self.defocus_disk_v.z as int, dy)
                },
    {
        let d: Vec3 = random_in_unit_disk();
        proof {
            lemma_disk_step(self.defocus_disk_u, d.x as int);
            lemma_disk_step(self.defocus_disk_v, d.y as int);
        }
        let su: Vec3 = self.defocus_disk_u.scale(d.x);
        let sv: Vec3 = self.defocus_disk_v.scale(d.y);
        let p: Vec3 = self.position.add(su).add(sv);
        proof {
            assert(d.x as int * d.x as int + d.y as int * d.y as int
                <= (SCALE as int) * (SCALE as int)) by {
                assert(sdot(d, d) == d.x as int * d.x as int + d.y as int * d.y as int
                    + d.z as int * d.z as int);
                assert(d.z as int * d.z as int == 0) by (nonlinear_arith)
                    requires
                        d.z as int == 0;
            };
            assert(-SCALE <= d.x as int <= SCALE && -SCALE <= d.y as int <= SCALE && {
                &&& p.x == self.position.x + crate::fx::fxm(self.defocus_disk_u.x as int, d.x as int)
                    + crate::fx::fxm(self.defocus_disk_v.x as int, d.y as int)
                &&& p.y == self.position.y + crate::fx::fxm(self.defocus_disk_u.y as int, d.x as int)
                    + crate::fx::fxm(self.defocus_disk_v.y as int, d.y as int)
                &&& p.z == self.position.z + crate::fx::fxm(self.defocus_disk_u.z as int, d.x as int)
                    + crate::fx::fxm(self.defocus_disk_v.z as int, d.y as int)
            });
        }
        p
    }
}

/// `ul + du * u / SCALE - dv * v / SCALE` for one coordinate.
fn viewport_component(ul: i64, du: i64, dv: i64, u: i64, v: i64) -> (r: i64)
    requires
        -CAMB <= ul <= CAMB,
        -DELTAB <= du <= DELTAB,
        -DELTAB <= dv <= DELTAB,
        0 <= u <= PIXB,
        0 <= v <= PIXB,
    ensures
        r == ul + crate::fx::fxm(du as int, u as int) - crate::fx::fxm(dv as int, v as int),
        -3 * CAMB <= r <= 3 * CAMB,
{
    proof {
        lemma_viewport_step(du as int, u as int);
        lemma_viewport_step(dv as int, v as int);
    }
    let a: i128 = (du as i128) * (u as i128);
    let b: i128 = (dv as i128) * (v as i128);
    let qa: i64 = div_floor(a, SCALE as i128) as i64;
    let qb: i64 = div_floor(b, SCALE as i128) as i64;
    ul + qa - qb
}

/// One viewport step stays within the camera anchor bound.
proof fn lemma_viewport_step(d: int, u: int)
    requires
        -DELTAB <= d <= DELTAB,
        0 <= u <= PIXB,
    ensures
        -(CAMB as int) * (SCALE as int) <= d * u <= (CAMB as int) * (SCALE as int),
        -CAMB <= d * u / (SCALE as int) <= CAMB,
{
    assert(-(CAMB as int) * (SCALE as int) <= d * u <= (CAMB as int) * (SCALE as int))
        by (nonlinear_arith)
        requires
            -DELTAB <= d <= DELTAB,
            0 <= u <= PIXB;
    crate::fx::lemma_div_scale_bound(d * u, CAMB as int);
}

/// One lens-disk step stays within a unit.
proof fn lemma_disk_step(axis: Vec3, k: int)
    requires
        bounded(axis, SCALE as int),
        -SCALE <= k <= SCALE,
    ensures
        -(SCALE as int) * (SCALE as int) <= axis.x * k <= (SCALE as int) * (SCALE as int),
        -(SCALE as int) * (SCALE as int) <= axis.y * k <= (SCALE as int) * (SCALE as int),
        -(SCALE as int) * (SCALE as int) <= axis.z * k <= (SCALE as int) * (SCALE as int),
        -SCALE <= axis.x * k / (SCALE as int) <= SCALE,
        -SCALE <= axis.y * k / (SCALE as int) <= SCALE,
        -SCALE <= axis.z * k / (SCALE as int) <= SCALE,
{
    assert(-(SCALE as int) * (SCALE as int) <= axis.x * k <= (SCALE as int) * (SCALE as int)
        && -(SCALE as int) * (SCALE as int) <= axis.y * k <= (SCALE as int) * (SCALE as int)
        && -(SCALE as int) * (SCALE as int) <= axis.z * k <= (SCALE as int) * (SCALE as int))
        by (nonlinear_arith)
        requires
            bounded(axis, SCALE as int),
            -SCALE <= k <= SCALE;
    crate::fx::lemma_div_scale_bound(axis.x * k, SCALE as int);
    crate::fx::lemma_div_scale_bound(axis.y * k, SCALE as int);
    crate::fx::lemma_div_scale_bound(axis.z * k, SCALE as int);
}

proof fn lemma_sq_sum_nonneg(v: Vec3)
    by (nonlinear_arith)
    ensures
        sdot(v, v) >= 0,
{
}

} // verus!
