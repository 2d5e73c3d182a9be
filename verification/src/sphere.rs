//! Spheres, with linear motion blur: the center is itself a ray, evaluated
//! at the intersecting ray's time stamp.

use vstd::prelude::*;
use crate::fx::{div_floor, fx_mul, fx_div, fx_sqrt, isqrt, sqrt_floor, SCALE, PI_FX};
use crate::hittable::{HitRecord, hit_wf};
use crate::material::{Material, mat_wf};
use crate::ray::{Ray, ray_wf, ray_at, CB, T_MAX};
use crate::util::random_in_unit_disk;
use crate::vec3::{Vec3, bounded, sdot, tdot, vtup};

verus! {

/// Bound on a sphere's center coordinates, its motion, and its radius: half
/// the scene bound, so the moving center stays inside the scene.
pub const SB: i64 = 0x200_0000;

pub struct Sphere {
    pub center: Ray,
    pub radius: i64,
    pub material: Material,
}

pub open spec fn sphere_wf(s: Sphere) -> bool {
    &&& bounded(s.center.origin, SB as int)
    &&& bounded(s.center.direction, SB as int)
    &&& 0 < s.radius <= SB
    &&& mat_wf(s.material)
}

/// Where the center is at a given time: the center ray walked to `time`.
pub open spec fn center_at_spec(s: Sphere, time: int) -> (int, int, int) {
    (
        s.center.origin.x + s.center.direction.x * time / (SCALE as int),
        s.center.origin.y + s.center.direction.y * time / (SCALE as int),
        s.center.origin.z + s.center.direction.z * time / (SCALE as int),
    )
}

/// The outward unit normal at the surface point the parameter names: the
/// offset from the current center, normalized, with a vertical fallback
/// for a degenerate offset.
pub open spec fn sphere_outward(s: Sphere, r: Ray, t: int) -> (int, int, int) {
    let c = center_at_spec(s, r.time as int);
    let h = ray_at(r, t);
    let off = (h.0 - c.0, h.1 - c.1, h.2 - c.2);
    if off.0 == 0 && off.1 == 0 && off.2 == 0 {
        (0int, 0int, SCALE as int)
    } else {
        crate::vec3::snorm3(off)
    }
}

/// The sphere intersection parameter: the smaller quadratic root if it lies
/// in `[t0, t1)`, else the larger, else none. A ray with a degenerate
/// direction hits nothing.
pub open spec fn sphere_hit(s: Sphere, r: Ray, t0: int, t1: int) -> Option<int> {
    let c = center_at_spec(s, r.time as int);
    let oc = (r.origin.x - c.0, r.origin.y - c.1, r.origin.z - c.2);
    let a = sdot(r.direction, r.direction);
    let hb = tdot(oc, vtup(r.direction));
    let cc = tdot(oc, oc) - s.radius * s.radius;
    if a == 0 {
        None
    } else {
        let disc = hb * hb - a * cc;
        if disc < 0 {
            None
        } else {
            let sq = sqrt_floor(disc);
            let tnear = (-hb - sq) * (SCALE as int) / a;
            if t0 <= tnear < t1 {
                Some(tnear)
            } else {
                let tfar = (-hb + sq) * (SCALE as int) / a;
                if t0 <= tfar < t1 {
                    Some(tfar)
                } else {
                    None
                }
            }
        }
    }
}

impl Sphere {
    pub fn new(center: Vec3, radius: i64, material: Material) -> (r: Sphere)
        requires
            bounded(center, SB as int),
            0 < radius <= SB,
            mat_wf(material),
        ensures
            r.center.origin == center,
            r.center.direction == (Vec3 { x: 0i64, y: 0i64, z: 0i64 }),
            r.radius == radius,
            r.material == material,
            sphere_wf(r),
    {
        Sphere { center: Ray::new(center, Vec3::zero()), radius, material }
    }

    /// A sphere moving linearly from `center1` to `center2` over one time
    /// unit.
    pub fn moving(center1: Vec3, center2: Vec3, radius: i64, material: Material) -> (r: Sphere)
        requires
            bounded(center1, 0x100_0000),
            bounded(center2, 0x100_0000),
            0 < radius <= SB,
            mat_wf(material),
        ensures
            r.center.origin == center1,
            r.center.direction.x == center2.x - center1.x,
            r.center.direction.y == center2.y - center1.y,
            r.center.direction.z == center2.z - center1.z,
            r.radius == radius,
            r.material == material,
            sphere_wf(r),
    {
        Sphere { center: Ray::new(center1, center2.sub(center1)), radius, material }
    }

    /// The center at a time stamp in `[0, SCALE)`.
    pub fn center_at(&self, time: i64) -> (c: Vec3)
        requires
            sphere_wf(*self),
            0 <= time < SCALE,
        ensures
            vtup(c) == center_at_spec(*self, time as int),
            bounded(c, CB as int),
    {
        let x: i64 = center_component(self.center.origin.x, self.center.direction.x, time);
        let y: i64 = center_component(self.center.origin.y, self.center.direction.y, time);
        let z: i64 = center_component(self.center.origin.z, self.center.direction.z, time);
        Vec3 { x, y, z }
    }

    /// Intersect a ray over `[t0, t1)`: exactly the parameter named by
    /// `sphere_hit`, with the outward normal derived from the hit point and
    /// surface coordinates from the normal's spherical angles.
    pub fn hits<'a>(&'a self, ray: &Ray, t0: i64, t1: i64) -> (r: Option<HitRecord<'a>>)
        requires
            sphere_wf(*self),
            ray_wf(*ray),
            0 <= t0 <= t1 <= T_MAX,
        ensures
            r is Some <==> sphere_hit(*self, *ray, t0 as int, t1 as int) is Some,
            r matches Some(h) ==> {
                &&& Some(h.t as int) == sphere_hit(*self, *ray, t0 as int, t1 as int)
                &&& t0 <= h.t < t1
                &&& vtup(h.hit_point) == ray_at(*ray, h.t as int)
                &&& {
                    let ow = sphere_outward(*self, *ray, h.t as int);
                    &&& h.front_face == (tdot(ow, vtup(ray.direction)) < 0)
                    &&& (h.front_face ==> vtup(h.normal) == ow)
                    &&& (!h.front_face ==> vtup(h.normal) == (-ow.0, -ow.1, -ow.2))
                    &&& (h.u as int, h.v as int) == s_get_uv(
                        Vec3 { x: ow.0 as i64, y: ow.1 as i64, z: ow.2 as i64 },
                    )
                }
                &&& h.ray == *ray
                &&& h.material == self.material
                &&& 0 <= h.u <= SCALE
                &&& 0 <= h.v <= SCALE
                &&& hit_wf(h)
            },
    {
        let current_center: Vec3 = self.center_at(ray.time);
        let oc: Vec3 = ray.origin.sub(current_center);
        let a: i64 = ray.direction.dot(ray.direction);
        if a == 0 {
            return None;
        }
        let hb: i64 = oc.dot(ray.direction);
        let ocsq: i64 = oc.dot(oc);
        proof {
            lemma_sphere_term_bounds(oc, *ray, self.radius as int);
        }
        let cc: i64 = ocsq - self.radius * self.radius;
        proof {
            assert(0 <= hb as int * hb as int <= 0x10_0000_0000_0000_0000_0000_0000)
                by (nonlinear_arith)
                requires
                    -0x1_0000_0000_0000 <= hb as int <= 0x1_0000_0000_0000;
            assert(-0x10_0000_0000_0000_0000_0000_0000 <= a as int * cc as int
                <= 0x10_0000_0000_0000_0000_0000_0000) by (nonlinear_arith)
                requires
                    0 <= a as int <= 0x100_0000_0000,
                    -0x200_0000_0000_0000 <= cc as int <= 0x200_0000_0000_0000;
        }
        let disc: i128 = (hb as i128) * (hb as i128) - (a as i128) * (cc as i128);
        if disc < 0 {
            return None;
        }
        let sq: u64 = isqrt(disc as u128);
        proof {
            crate::fx::lemma_sqrt_floor_unique(disc as int, sq as int);
            lemma_sqrt_small(disc as int, sq as int);
        }
        proof {
            assert(-0x4_0000_0000_0000_0000 * (SCALE as int)
                <= ((-hb) as int - sq as int) * (SCALE as int)
                <= 0x4_0000_0000_0000_0000 * (SCALE as int)) by (nonlinear_arith)
                requires
                    -0x1_0000_0000_0000 <= hb as int <= 0x1_0000_0000_0000,
                    0 <= sq as int <= 0x8_0000_0000_0000;
            assert(-0x4_0000_0000_0000_0000 * (SCALE as int)
                <= ((-hb) as int + sq as int) * (SCALE as int)
                <= 0x4_0000_0000_0000_0000 * (SCALE as int)) by (nonlinear_arith)
                requires
                    -0x1_0000_0000_0000 <= hb as int <= 0x1_0000_0000_0000,
                    0 <= sq as int <= 0x8_0000_0000_0000;
        }
        let tnear: i128 = div_floor(
            ((-hb) as i128 - sq as i128) * (SCALE as i128),
            a as i128,
        );
        let tfar: i128 = div_floor(
            ((-hb) as i128 + sq as i128) * (SCALE as i128),
            a as i128,
        );
        let t: i64 = if t0 as i128 <= tnear && tnear < t1 as i128 {
            tnear as i64
        } else if t0 as i128 <= tfar && tfar < t1 as i128 {
            tfar as i64
        } else {
            return None;
        };
        let hit_point: Vec3 = ray.at(t);
        let outward: Vec3 = self.outward_normal(hit_point, current_center);
        let uv: (i64, i64) = Sphere::get_uv(outward);
        let mut hr: HitRecord<'a> = HitRecord::new(t, hit_point, ray, outward, &self.material);
        hr.set_uv(uv);
        Some(hr)
    }

    /// The unit outward normal at a surface point (the offset from the
    /// center, normalized; the center itself yields the vertical axis).
    fn outward_normal(&self, hit_point: Vec3, current_center: Vec3) -> (n: Vec3)
        requires
            bounded(hit_point, crate::ray::PB as int),
            bounded(current_center, CB as int),
        ensures
            bounded(n, SCALE as int),
            sdot(n, n) > 0,
            ({
                let off = (
                    hit_point.x - current_center.x,
                    hit_point.y - current_center.y,
                    hit_point.z - current_center.z,
                );
                if off.0 == 0 && off.1 == 0 && off.2 == 0 {
                    vtup(n) == (0int, 0int, SCALE as int)
                } else {
                    vtup(n) == crate::vec3::snorm3(off)
                }
            }),
    {
        let off: Vec3 = hit_point.sub(current_center);
        proof {
            lemma_sq3_nonneg(off);
        }
        let d: i128 = off.dot_wide(off);
        if d == 0 {
            proof {
                assert(off.x == 0 && off.y == 0 && off.z == 0) by (nonlinear_arith)
                    requires
                        sdot(off, off) == 0;
            }
            Vec3 { x: 0, y: 0, z: SCALE }
        } else {
            let n: Vec3 = off.normalize();
            proof {
                crate::vec3::lemma_normalize_nonzero(off, n);
            }
            n
        }
    }

    /// Spherical surface coordinates of a unit direction, each in
    /// `[0, SCALE]`: the longitude angle over a full turn, the latitude
    /// angle over half a turn.
    pub fn get_uv(direction: Vec3) -> (uv: (i64, i64))
        requires
            bounded(direction, SCALE as int),
        ensures
            (uv.0 as int, uv.1 as int) == s_get_uv(direction),
            0 <= uv.0 <= SCALE,
            0 <= uv.1 <= SCALE,
    {
        let at: i64 = atan2_fx(direction.x, direction.z);
        proof {
            lemma_angle_quotient(at as int, 2 * PI_FX as int);
        }
        let u: i64 = clamp_unit(32768 + fx_div(at, 2 * PI_FX));
        proof {
            assert(0 <= direction.y as int * direction.y as int
                <= (SCALE as int) * (SCALE as int)) by (nonlinear_arith)
                requires
                    -SCALE <= direction.y as int <= SCALE;
        }
        let ysq: i64 = fx_mul(direction.y, direction.y);
        proof {
            crate::fx::lemma_div_scale_bound(direction.y as int * direction.y as int, SCALE as int);
        }
        let cosl: i64 = fx_sqrt(if ysq > SCALE {
            0
        } else {
            SCALE - ysq
        });
        let asin: i64 = atan2_fx(direction.y, cosl);
        proof {
            lemma_angle_quotient(asin as int, PI_FX as int);
        }
        let v: i64 = clamp_unit(32768 - fx_div(asin, PI_FX));
        (u, v)
    }

    /// The density, in solid angle, of drawing a direction from `origin`
    /// that hits this sphere: the reciprocal of the subtended cone's solid
    /// angle, zero when the ray misses or the geometry degenerates (an
    /// origin inside the sphere is treated as zero density).
    pub fn pdf_value(&self, origin: &Vec3, direction: &Vec3) -> (r: i64)
        requires
            sphere_wf(*self),
            bounded(*origin, CB as int),
            bounded(*direction, crate::ray::DB as int),
        ensures
            r == sphere_pdf_density(*self, *origin, *direction),
            r >= 0,
    {
        let probe: Ray = Ray::new(*origin, *direction);
        let hit: Option<HitRecord> = self.hits(&probe, crate::ray::T_EPS, T_MAX);
        if hit.is_none() {
            return 0;
        }
        let center: Vec3 = self.center_at(0);
        let oc: Vec3 = center.sub(*origin);
        let dsq: i64 = oc.dot(oc);
        proof {
            lemma_sq3_nonneg(oc);
        }
        if dsq == 0 {
            return 0;
        }
        proof {
            assert(0 <= (self.radius as int) * (self.radius as int) <= 0x10_0000_0000_0000)
                by (nonlinear_arith)
                requires
                    0 < self.radius <= SB;
            vstd::arithmetic::mul::lemma_mul_nonnegative(
                (self.radius as int) * (self.radius as int),
                SCALE as int,
            );
            assert((self.radius as int) * (self.radius as int) * (SCALE as int)
                <= 0x10_0000_0000_0000 * (SCALE as int)) by (nonlinear_arith)
                requires
                    0 <= (self.radius as int) * (self.radius as int) <= 0x10_0000_0000_0000;
        }
        let rsqs: i128 = (self.radius as i128) * (self.radius as i128) * (SCALE as i128);
        let q: i128 = div_floor(rsqs, dsq as i128);
        if q > SCALE as i128 {
            return 0;
        }
        let cosmax: i64 = fx_sqrt(SCALE - (q as i64));
        let solid: i64 = fx_mul(2 * PI_FX, SCALE - cosmax);
        proof {
            assert(2 * (PI_FX as int) * ((SCALE as int) - cosmax as int)
                <= 0x8000_0000_0000 * (SCALE as int)) by (nonlinear_arith)
                requires
                    0 <= (SCALE as int) - cosmax as int <= SCALE as int;
            vstd::arithmetic::mul::lemma_mul_nonnegative(
                2 * (PI_FX as int),
                (SCALE as int) - cosmax as int,
            );
            crate::fx::lemma_div_scale_bound(
                2 * (PI_FX as int) * ((SCALE as int) - cosmax as int),
                0x8000_0000_0000,
            );
            vstd::arithmetic::div_mod::lemma_div_pos_is_pos(
                2 * (PI_FX as int) * ((SCALE as int) - cosmax as int),
                SCALE as int,
            );
        }
        if solid <= 0 {
            return 0;
        }
        proof {
            vstd::arithmetic::mul::lemma_mul_nonnegative(SCALE as int, SCALE as int);
            crate::fx::lemma_div_mag((SCALE as int) * (SCALE as int), solid as int);
        }
        fx_div(SCALE, solid)
    }

    /// A direction from `origin` toward the sphere, drawn uniformly over
    /// the cone the sphere subtends: the cosine to the cone axis is drawn
    /// from `[cos_max, 1]`, the azimuth from a normalized disk sample, and
    /// the local frame mapped through the basis about the axis. This is the
    /// same density `pdf_value` reports. An origin at the center falls back
    /// to the vertical axis.
    pub fn random(&self, origin: &Vec3) -> (r: Vec3)
        requires
            sphere_wf(*self),
            bounded(*origin, CB as int),
        ensures
            bounded(r, 8 * SCALE as int),
            sphere_sample_rel(*self, *origin, r),
    {
        let center: Vec3 = self.center_at(0);
        let dir0: Vec3 = center.sub(*origin);
        proof {
            lemma_sq3_nonneg(dir0);
        }
        let dsq: i64 = dir0.dot(dir0);
        if dsq == 0 {
            return Vec3 { x: 0, y: 0, z: SCALE };
        }
        proof {
            assert(0 <= (self.radius as int) * (self.radius as int) <= 0x10_0000_0000_0000)
                by (nonlinear_arith)
                requires
                    0 < self.radius <= SB;
            vstd::arithmetic::mul::lemma_mul_nonnegative(
                (self.radius as int) * (self.radius as int),
                SCALE as int,
            );
            assert((self.radius as int) * (self.radius as int) * (SCALE as int)
                <= 0x10_0000_0000_0000 * (SCALE as int)) by (nonlinear_arith)
                requires
                    0 <= (self.radius as int) * (self.radius as int) <= 0x10_0000_0000_0000;
        }
        let rsqs: i128 = (self.radius as i128) * (self.radius as i128) * (SCALE as i128);
        let q: i128 = div_floor(rsqs, dsq as i128);
        let m: i64 = if q > SCALE as i128 {
            0
        } else {
            SCALE - (q as i64)
        };
        let cos_max: i64 = fx_sqrt(m);
        let uvw: crate::pdf::OrthonormalBasis = crate::pdf::OrthonormalBasis::new(&dir0);
        let r2: i64 = crate::util::random_fx_unit();
        proof {
            assert(-(SCALE as int) * (SCALE as int) <= r2 as int * (cos_max as int
                - SCALE as int) <= 0) by (nonlinear_arith)
                requires
                    0 <= (r2 as int) < SCALE as int,
                    0 <= cos_max as int <= SCALE as int;
            crate::fx::lemma_div_scale_bound(r2 as int * (cos_max as int - SCALE as int), SCALE as int);
            vstd::arithmetic::div_mod::lemma_div_is_ordered(
                r2 as int * (cos_max as int - SCALE as int),
                0,
                SCALE as int,
            );
            vstd::arithmetic::div_mod::lemma_div_basics(SCALE as int);
        }
        let z: i64 = SCALE + fx_mul(r2, cos_max - SCALE);
        let disk: Vec3 = random_in_unit_disk();
        let u2: Vec3 = disk.normalize();
        proof {
            assert(0 <= (z as int) * (z as int) <= (SCALE as int) * (SCALE as int))
                by (nonlinear_arith)
                requires
                    0 <= z as int <= SCALE as int;
            crate::fx::lemma_div_scale_bound((z as int) * (z as int), SCALE as int);
            vstd::arithmetic::div_mod::lemma_div_pos_is_pos((z as int) * (z as int), SCALE as int);
        }
        let zz: i64 = fx_mul(z, z);
        let s2: i64 = if zz > SCALE {
            0
        } else {
            SCALE - zz
        };
        let sl: i64 = fx_sqrt(s2);
        proof {
            lemma_local_component(u2.x as int, sl as int);
            lemma_local_component(u2.y as int, sl as int);
        }
        let local: Vec3 = Vec3 { x: fx_mul(u2.x, sl), y: fx_mul(u2.y, sl), z };
        let out: Vec3 = uvw.transform(&local);
        proof {
            assert(sphere_cone_rel(*self, *origin, r2 as int, disk, uvw, out));
        }
        out
    }
}

/// One horizontal coordinate of the local cone frame stays within a unit.
proof fn lemma_local_component(u: int, sl: int)
    requires
        -SCALE <= u <= SCALE,
        0 <= sl <= SCALE,
    ensures
        -(SCALE as int) * (SCALE as int) <= u * sl <= (SCALE as int) * (SCALE as int),
        -SCALE <= u * sl / (SCALE as int) <= SCALE,
{
    assert(-(SCALE as int) * (SCALE as int) <= u * sl <= (SCALE as int) * (SCALE as int))
        by (nonlinear_arith)
        requires
            -SCALE <= u <= SCALE,
            0 <= sl <= SCALE;
    crate::fx::lemma_div_scale_bound(u * sl, SCALE as int);
}

/// The fixed-point cosine of the cone the sphere subtends from `origin`:
/// the square root of `1 - radius^2 / distance^2`, clamped at zero when
/// the origin is inside.
pub open spec fn scone_cos_max(s: Sphere, origin: Vec3) -> int {
    let c = center_at_spec(s, 0);
    let oc = (c.0 - origin.x, c.1 - origin.y, c.2 - origin.z);
    let dsq = tdot(oc, oc);
    let q = s.radius * s.radius * (SCALE as int) / dsq;
    let m = if q > SCALE as int {
        0
    } else {
        (SCALE as int) - q
    };
    sqrt_floor(m * (SCALE as int))
}

/// The drawn direction is the basis image of the local cone frame built
/// from the draws: cosine `z` interpolated between the cone cosine and one
/// by `r2`, azimuth the normalized disk sample, horizontal radius
/// `sqrt(1 - z^2)`.
pub open spec fn sphere_cone_rel(
    s: Sphere,
    origin: Vec3,
    r2: int,
    disk: Vec3,
    b: crate::pdf::OrthonormalBasis,
    out: Vec3,
) -> bool {
    let c = center_at_spec(s, 0);
    let dvec = Vec3 {
        x: (c.0 - origin.x) as i64,
        y: (c.1 - origin.y) as i64,
        z: (c.2 - origin.z) as i64,
    };
    let cos_max = scone_cos_max(s, origin);
    let z = SCALE as int + crate::fx::fxm(r2, cos_max - SCALE as int);
    let u2 = crate::vec3::snormalize(disk);
    let zz = crate::fx::fxm(z, z);
    let s2 = if zz > SCALE as int {
        0
    } else {
        (SCALE as int) - zz
    };
    let sl = sqrt_floor(s2 * (SCALE as int));
    let local = (crate::fx::fxm(u2.0, sl), crate::fx::fxm(u2.1, sl), z);
    &&& crate::pdf::onb_wf(b, dvec)
    &&& out.x as int == crate::fx::fxm(local.0, b.u.x as int) + crate::fx::fxm(
        local.1,
        b.v.x as int,
    ) + crate::fx::fxm(local.2, b.w.x as int)
    &&& out.y as int == crate::fx::fxm(local.0, b.u.y as int) + crate::fx::fxm(
        local.1,
        b.v.y as int,
    ) + crate::fx::fxm(local.2, b.w.y as int)
    &&& out.z as int == crate::fx::fxm(local.0, b.u.z as int) + crate::fx::fxm(
        local.1,
        b.v.z as int,
    ) + crate::fx::fxm(local.2, b.w.z as int)
}

/// Either the origin sits at the center (vertical fallback) or the
/// direction came from the cone construction for some draws.
pub open spec fn sphere_sample_rel(s: Sphere, origin: Vec3, out: Vec3) -> bool {
    let c = center_at_spec(s, 0);
    let oc = (c.0 - origin.x, c.1 - origin.y, c.2 - origin.z);
    if tdot(oc, oc) == 0 {
        out == (Vec3 { x: 0i64, y: 0i64, z: SCALE })
    } else {
        exists|r2: int, disk: Vec3, b: crate::pdf::OrthonormalBasis|
            0 <= r2 < SCALE && bounded(disk, SCALE as int) && 0 < sdot(disk, disk) <= (
            SCALE as int) * (SCALE as int) && disk.z == 0 && #[trigger] sphere_cone_rel(
                s,
                origin,
                r2,
                disk,
                b,
                out,
            )
    }
}

/// One component of the moving center.
fn center_component(o: i64, d: i64, time: i64) -> (r: i64)
    requires
        -SB <= o <= SB,
        -SB <= d <= SB,
        0 <= time < SCALE,
    ensures
        r == o + d as int * time as int / (SCALE as int),
        -CB <= r <= CB,
{
    proof {
        assert(-(SB as int) * (SCALE as int) <= d as int * time as int
            <= (SB as int) * (SCALE as int)) by (nonlinear_arith)
            requires
                -SB <= d as int <= SB,
                0 <= time as int <= SCALE as int;
        crate::fx::lemma_div_scale_bound(d as int * time as int, SB as int);
    }
    let p: i128 = (d as i128) * (time as i128);
    let q: i128 = div_floor(p, SCALE as i128);
    o + (q as i64)
}

/// A fixed-point angle divided by a turn stays within half a unit.
proof fn lemma_angle_quotient(at: int, turn: int)
    requires
        -PI_FX <= at <= PI_FX,
        PI_FX <= turn,
    ensures
        -0x8000_0000_0000 <= at * (SCALE as int) / turn <= 0x8000_0000_0000,
{
    assert(-0x8000_0000_0000 <= at * (SCALE as int) <= 0x8000_0000_0000)
        by (nonlinear_arith)
        requires
            -PI_FX <= at <= PI_FX;
    crate::fx::lemma_div_mag(at * (SCALE as int), turn);
}

/// The squared length of a vector is non-negative.
proof fn lemma_sq3_nonneg(v: Vec3)
    by (nonlinear_arith)
    ensures
        sdot(v, v) >= 0,
{
}

/// The density spec the solid-angle computation mirrors.
pub open spec fn sphere_pdf_density(s: Sphere, o: Vec3, d: Vec3) -> int {
    let probe = Ray { origin: o, direction: d, time: 0i64 };
    if sphere_hit(s, probe, crate::ray::T_EPS as int, T_MAX as int) is None {
        0
    } else {
        let c = center_at_spec(s, 0);
        let oc = (c.0 - o.x, c.1 - o.y, c.2 - o.z);
        let dsq = tdot(oc, oc);
        if dsq == 0 {
            0
        } else {
            let q = s.radius * s.radius * (SCALE as int) / dsq;
            if q > SCALE as int {
                0
            } else {
                let cosmax = sqrt_floor(((SCALE as int) - q) * (SCALE as int));
                let solid = 2 * (PI_FX as int) * ((SCALE as int) - cosmax) / (SCALE as int);
                if solid <= 0 {
                    0
                } else {
                    (SCALE as int) * (SCALE as int) / solid
                }
            }
        }
    }
}

/// Shrinking the upper end of the interval keeps exactly the hits below
/// it: the root the predicate settles on is unchanged.
pub proof fn lemma_sphere_hit_shrink(s: Sphere, r: Ray, t0: int, c: int, t1: int)
    requires
        t0 <= c <= t1,
    ensures
        sphere_hit(s, r, t0, c) == (match sphere_hit(s, r, t0, t1) {
            Some(t) => if t < c {
                Some(t)
            } else {
                None::<int>
            },
            None => None::<int>,
        }),
{
    let cc = center_at_spec(s, r.time as int);
    let oc = (r.origin.x - cc.0, r.origin.y - cc.1, r.origin.z - cc.2);
    let a = sdot(r.direction, r.direction);
    let hb = tdot(oc, vtup(r.direction));
    let c2 = tdot(oc, oc) - s.radius * s.radius;
    if a != 0 {
        let disc = hb * hb - a * c2;
        if disc >= 0 {
            let sq = sqrt_floor(disc);
            crate::fx::lemma_sqrt_floor(disc);
            assert((-hb - sq) * (SCALE as int) <= (-hb + sq) * (SCALE as int))
                by (nonlinear_arith)
                requires
                    sq >= 0;
            assert(a > 0) by {
                lemma_sq3_nonneg(r.direction);
            };
            vstd::arithmetic::div_mod::lemma_div_is_ordered(
                (-hb - sq) * (SCALE as int),
                (-hb + sq) * (SCALE as int),
                a,
            );
        }
    }
}

/// A ray aimed straight at a sphere's center meets the rim at the center
/// distance minus the radius; when the interval starts past that front
/// point, it meets the far rim at the distance plus the radius. For an
/// axis-aligned unit direction every step of the computation is exact.
pub proof fn lemma_ray_through_center(o: Vec3, dist: i64, rad: i64, t0: int, t1: int)
    requires
        0 < rad < dist <= SB,
        bounded(o, SB as int),
    ensures
        ({
            let r = Ray {
                origin: o,
                direction: Vec3 { x: 0i64, y: 0i64, z: SCALE },
                time: 0i64,
            };
            let s = Sphere {
                center: Ray {
                    origin: Vec3 { x: o.x, y: o.y, z: (o.z + dist) as i64 },
                    direction: Vec3 { x: 0i64, y: 0i64, z: 0i64 },
                    time: 0i64,
                },
                radius: rad,
                material: Material::Dielectric(crate::material::Dielectric {
                    refraction_index: SCALE,
                }),
            };
            &&& (t0 <= dist - rad < t1 ==> sphere_hit(s, r, t0, t1) == Some(dist - rad as int))
            &&& (dist - rad < t0 <= dist + rad < t1 ==> sphere_hit(s, r, t0, t1) == Some(
                dist + rad as int,
            ))
        }),
{
    let r = Ray { origin: o, direction: Vec3 { x: 0i64, y: 0i64, z: SCALE }, time: 0i64 };
    let s = Sphere {
        center: Ray {
            origin: Vec3 { x: o.x, y: o.y, z: (o.z + dist) as i64 },
            direction: Vec3 { x: 0i64, y: 0i64, z: 0i64 },
            time: 0i64,
        },
        radius: rad,
        material: Material::Dielectric(crate::material::Dielectric { refraction_index: SCALE }),
    };
    let c = center_at_spec(s, 0);
    assert(c == (o.x as int, o.y as int, (o.z + dist) as int)) by {
        vstd::arithmetic::mul::lemma_mul_by_zero_is_zero(0);
        vstd::arithmetic::div_mod::lemma_div_basics(SCALE as int);
    };
    let oc = (r.origin.x - c.0, r.origin.y - c.1, r.origin.z - c.2);
    assert(oc == (0int, 0int, -(dist as int)));
    let a = sdot(r.direction, r.direction);
    let hb = tdot(oc, vtup(r.direction));
    let cc = tdot(oc, oc) - s.radius * s.radius;
    assert(a == (SCALE as int) * (SCALE as int) && hb == -(dist as int) * (SCALE as int)
        && cc == (dist as int) * (dist as int) - (rad as int) * (rad as int))
        by (nonlinear_arith)
        requires
            a == sdot(r.direction, r.direction),
            hb == tdot(oc, vtup(r.direction)),
            cc == tdot(oc, oc) - s.radius * s.radius,
            oc == (0int, 0int, -(dist as int)),
            r.direction == (Vec3 { x: 0i64, y: 0i64, z: SCALE }),
            s.radius == rad;
    let disc = hb * hb - a * cc;
    assert(disc == ((SCALE as int) * (rad as int)) * ((SCALE as int) * (rad as int)))
        by (nonlinear_arith)
        requires
            disc == hb * hb - a * cc,
            hb == -(dist as int) * (SCALE as int),
            a == (SCALE as int) * (SCALE as int),
            cc == (dist as int) * (dist as int) - (rad as int) * (rad as int);
    let root = (SCALE as int) * (rad as int);
    assert(root > 0 && disc >= 0) by (nonlinear_arith)
        requires
            disc == root * root,
            root == (SCALE as int) * (rad as int),
            0 < rad;
    assert((root + 1) * (root + 1) > disc) by (nonlinear_arith)
        requires
            disc == root * root,
            root > 0;
    crate::fx::lemma_sqrt_floor_unique(disc, root);
    let sq = sqrt_floor(disc);
    assert(sq == root);
    assert((-hb - sq) * (SCALE as int) == ((dist - rad) as int) * a) by (nonlinear_arith)
        requires
            hb == -(dist as int) * (SCALE as int),
            sq == (SCALE as int) * (rad as int),
            a == (SCALE as int) * (SCALE as int);
    assert((-hb + sq) * (SCALE as int) == ((dist + rad) as int) * a) by (nonlinear_arith)
        requires
            hb == -(dist as int) * (SCALE as int),
            sq == (SCALE as int) * (rad as int),
            a == (SCALE as int) * (SCALE as int);
    assert(((dist - rad) as int) * a == a * ((dist - rad) as int)) by (nonlinear_arith);
    assert(((dist + rad) as int) * a == a * ((dist + rad) as int)) by (nonlinear_arith);
    vstd::arithmetic::div_mod::lemma_div_multiples_vanish(dist - rad as int, a);
    vstd::arithmetic::div_mod::lemma_div_multiples_vanish(dist + rad as int, a);
    assert((-hb - sq) * (SCALE as int) / a == dist - rad as int);
    assert((-hb + sq) * (SCALE as int) / a == dist + rad as int);
}

/// The solid-angle density is at most one whole fixed-point unit squared.
pub proof fn lemma_sphere_density_range(s: Sphere, o: Vec3, d: Vec3)
    ensures
        0 <= sphere_pdf_density(s, o, d) <= 0x1_0000_0000,
{
    let probe = Ray { origin: o, direction: d, time: 0i64 };
    if sphere_hit(s, probe, crate::ray::T_EPS as int, T_MAX as int) is Some {
        let c = center_at_spec(s, 0);
        let oc = (c.0 - o.x, c.1 - o.y, c.2 - o.z);
        let dsq = tdot(oc, oc);
        if dsq != 0 {
            let q = s.radius * s.radius * (SCALE as int) / dsq;
            if q <= SCALE as int {
                let cosmax = sqrt_floor(((SCALE as int) - q) * (SCALE as int));
                let solid = 2 * (PI_FX as int) * ((SCALE as int) - cosmax) / (SCALE as int);
                if solid > 0 {
                    crate::fx::lemma_div_mag((SCALE as int) * (SCALE as int), solid);
                }
            }
        }
    }
}

/// The quadratic's coefficients stay inside 64 bits.
proof fn lemma_sphere_term_bounds(oc: Vec3, r: Ray, radius: int)
    by (nonlinear_arith)
    requires
        bounded(oc, 2 * CB as int),
        bounded(r.direction, crate::ray::DB as int),
        0 <= radius <= SB,
    ensures
        -0x1_0000_0000_0000 <= sdot(oc, r.direction) <= 0x1_0000_0000_0000,
        0 <= sdot(oc, oc) <= 0x100_0000_0000_0000,
        0 <= sdot(r.direction, r.direction) <= 0x100_0000_0000,
        0 <= radius * radius <= 0x10_0000_0000_0000,
{
}

/// A discriminant bounded by its construction has a small root.
proof fn lemma_sqrt_small(disc: int, sq: int)
    requires
        0 <= disc <= 0x40_0000_0000_0000_0000_0000_0000,
        sq >= 0,
        sq * sq <= disc,
        (sq + 1) * (sq + 1) > disc,
    ensures
        sq <= 0x8_0000_0000_0000,
{
    if sq > 0x8_0000_0000_0000 {
        assert(sq * sq > 0x40_0000_0000_0000_0000_0000_0000) by (nonlinear_arith)
            requires
                sq > 0x8_0000_0000_0000;
    }
}

/// Clamp a fixed-point value into `[0, SCALE]`, at the spec level.
pub open spec fn sclamp_unit(v: int) -> int {
    if v < 0 {
        0
    } else if v > SCALE as int {
        SCALE as int
    } else {
        v
    }
}

/// The one-octant arctangent approximation, at the spec level.
pub open spec fn satan_core(z: int) -> int {
    crate::fx::fxm(z, 51472) + crate::fx::fxm(crate::fx::fxm(17895, z), (SCALE as int) - z)
}

/// The two-argument arctangent, at the spec level: octant reduction around
/// the one-octant approximation.
pub open spec fn satan2(y: int, x: int) -> int {
    let ay = if y < 0 {
        -y
    } else {
        y
    };
    let ax = if x < 0 {
        -x
    } else {
        x
    };
    let base = if ax == 0 && ay == 0 {
        0
    } else if ay <= ax {
        satan_core(sclamp_unit(ay * (SCALE as int) / (if ax == 0 {
            1
        } else {
            ax
        })))
    } else {
        102944 - satan_core(sclamp_unit(ax * (SCALE as int) / ay))
    };
    let q = if x >= 0 {
        base
    } else {
        (PI_FX as int) - base
    };
    if y >= 0 {
        q
    } else {
        -q
    }
}

/// The spherical surface coordinates of a unit direction, at the spec
/// level: longitude over a full turn, latitude over half a turn, clamped
/// into `[0, 1]` of a unit.
pub open spec fn s_get_uv(d: Vec3) -> (int, int) {
    let u = sclamp_unit(32768 + satan2(d.x as int, d.z as int) * (SCALE as int) / (2 * PI_FX as int));
    let ysq = crate::fx::fxm(d.y as int, d.y as int);
    let m = if ysq > SCALE as int {
        0
    } else {
        (SCALE as int) - ysq
    };
    let cosl = sqrt_floor(m * (SCALE as int));
    let asin = satan2(d.y as int, cosl);
    let v = sclamp_unit(32768 - asin * (SCALE as int) / (PI_FX as int));
    (u, v)
}

/// Clamp a fixed-point value into `[0, SCALE]`.
fn clamp_unit(v: i64) -> (r: i64)
    ensures
        r == sclamp_unit(v as int),
        0 <= r <= SCALE,
{
    if v < 0 {
        0
    } else if v > SCALE {
        SCALE
    } else {
        v
    }
}

/// A fixed-point arctangent over one octant: for `0 <= z <= SCALE`, a
/// quadratic approximation of `atan(z)` in fixed-point radians.
fn atan_core(z: i64) -> (r: i64)
    requires
        0 <= z <= SCALE,
    ensures
        r == satan_core(z as int),
        0 <= r <= 102944,
{
    let linear: i64 = fx_mul(z, 51472);
    let correction: i64 = fx_mul(fx_mul(17895, z), SCALE - z);
    proof {
        crate::fx::lemma_div_scale_bound(z as int * 51472, 51472);
        assert(z as int * 51472 <= 51472 * (SCALE as int)) by (nonlinear_arith)
            requires
                0 <= z as int <= SCALE as int;
        lemma_correction_bound(z as int);
    }
    linear + correction
}

proof fn lemma_correction_bound(z: int)
    requires
        0 <= z <= SCALE,
    ensures
        0 <= 17895 * z / (SCALE as int) <= 17895,
        0 <= (17895 * z / (SCALE as int)) * ((SCALE as int) - z) / (SCALE as int) <= 17895,
{
    assert(0 <= 17895 * z <= 17895 * (SCALE as int)) by (nonlinear_arith)
        requires
            0 <= z <= SCALE;
    crate::fx::lemma_div_scale_bound(17895 * z, 17895);
    let q = 17895 * z / (SCALE as int);
    assert(0 <= q * ((SCALE as int) - z) <= 17895 * (SCALE as int)) by (nonlinear_arith)
        requires
            0 <= q <= 17895,
            0 <= (SCALE as int) - z <= SCALE as int;
    crate::fx::lemma_div_scale_bound(q * ((SCALE as int) - z), 17895);
    vstd::arithmetic::div_mod::lemma_div_pos_is_pos(17895 * z, SCALE as int);
    vstd::arithmetic::mul::lemma_mul_nonnegative(q, (SCALE as int) - z);
    vstd::arithmetic::div_mod::lemma_div_pos_is_pos(q * ((SCALE as int) - z), SCALE as int);
}

/// A fixed-point two-argument arctangent: the angle of `(x, y)` in
/// fixed-point radians, within `[-pi, pi]`.
fn atan2_fx(y: i64, x: i64) -> (r: i64)
    requires
        -SCALE <= y <= SCALE,
        -SCALE <= x <= SCALE,
    ensures
        r == satan2(y as int, x as int),
        -PI_FX <= r <= PI_FX,
{
    let ay: i64 = if y < 0 {
        -y
    } else {
        y
    };
    let ax: i64 = if x < 0 {
        -x
    } else {
        x
    };
    let base: i64 = if ax == 0 && ay == 0 {
        0
    } else if ay <= ax {
        let z: i64 = fx_div(ay, if ax == 0 {
            1
        } else {
            ax
        });
        atan_core(clamp_unit(z))
    } else {
        let z: i64 = fx_div(ax, ay);
        proof {
            crate::fx::lemma_div_mag(ax as int * SCALE as int, ay as int);
            vstd::arithmetic::mul::lemma_mul_nonnegative(ax as int, SCALE as int);
        }
        102944 - atan_core(clamp_unit(z))
    };
    // fold the first-quadrant angle back into the right quadrant
    let q: i64 = if x >= 0 {
        base
    } else {
        PI_FX - base
    };
    if y >= 0 {
        q
    } else {
        -q
    }
}

} // verus!
