//! Triangles: the primitive meshes are made of. The intersection test is
//! exact integer arithmetic: a plane crossing followed by barycentric sign
//! tests against the precomputed denominator.

use vstd::prelude::*;
use crate::fx::{div_floor, SCALE};
use crate::hittable::{HitRecord, hit_wf};
use crate::material::{Material, mat_wf};
use crate::ray::{Ray, ray_wf, ray_at, CB, PB, T_MAX};
use crate::vec3::{Vec3, bounded, sdot, scross, tsub, tdot, tcross, vtup};

verus! {

/// Bound on the barycentric denominator: twice the largest representable
/// triangle area times the fixed-point unit.
pub const TRI_DEN_MAX: i128 = 0x1_0000_0000_0000_0000_0000;

pub struct Triangle {
    pub p1: Vec3,
    pub p2: Vec3,
    pub p3: Vec3,
    pub normal: Vec3,
    pub denominator: i128,
}

/// The cross product of the triangle's edge vectors (twice its area vector,
/// scaled by `SCALE * SCALE`).
pub open spec fn tri_cross(p1: Vec3, p2: Vec3, p3: Vec3) -> (int, int, int) {
    tcross(tsub(p2, p1), tsub(p3, p1))
}

/// Well-formed triangle: vertices inside the scene bounds, a near-unit
/// normal, and the denominator the constructor computed from them.
pub open spec fn tri_wf(t: Triangle) -> bool {
    &&& bounded(t.p1, CB as int)
    &&& bounded(t.p2, CB as int)
    &&& bounded(t.p3, CB as int)
    &&& bounded(t.normal, SCALE as int)
    &&& sdot(t.normal, t.normal) > 0
    &&& {
        let cr = tri_cross(t.p1, t.p2, t.p3);
        if tdot(cr, cr) > 0 {
            vtup(t.normal) == crate::vec3::snorm3(cr)
        } else {
            t.normal == (Vec3 { x: 0i64, y: 0i64, z: SCALE })
        }
    }
    &&& t.denominator == tdot(vtup(t.normal), tri_cross(t.p1, t.p2, t.p3))
    &&& -TRI_DEN_MAX <= t.denominator <= TRI_DEN_MAX
}

/// The least of three integers.
pub open spec fn smin3(a: int, b: int, c: int) -> int {
    if a <= b && a <= c {
        a
    } else if b <= c {
        b
    } else {
        c
    }
}

/// The greatest of three integers.
pub open spec fn smax3(a: int, b: int, c: int) -> int {
    if a >= b && a >= c {
        a
    } else if b >= c {
        b
    } else {
        c
    }
}

/// The point lies within the triangle's vertex bounding box, padded by a
/// few fixed-point steps of rounding slack. A genuine crossing point can
/// only leave the unpadded box by rounding, which stays well within the
/// pad, so demanding this of a hit rejects nothing real while tying every
/// hit point to the boxes the acceleration tree stores.
pub open spec fn tri_box_contains(t: Triangle, h: (int, int, int)) -> bool {
    &&& smin3(t.p1.x as int, t.p2.x as int, t.p3.x as int) - 7 <= h.0 <= smax3(
        t.p1.x as int,
        t.p2.x as int,
        t.p3.x as int,
    ) + 7
    &&& smin3(t.p1.y as int, t.p2.y as int, t.p3.y as int) - 7 <= h.1 <= smax3(
        t.p1.y as int,
        t.p2.y as int,
        t.p3.y as int,
    ) + 7
    &&& smin3(t.p1.z as int, t.p2.z as int, t.p3.z as int) - 7 <= h.2 <= smax3(
        t.p1.z as int,
        t.p2.z as int,
        t.p3.z as int,
    ) + 7
}

/// The numerator of one barycentric weight at point `h`: the normal dotted
/// with the cross product of the two corner offsets.
pub open spec fn corner_num(n: Vec3, a: Vec3, b: Vec3, h: (int, int, int)) -> int {
    tdot(vtup(n), tcross(
        (a.x - h.0, a.y - h.1, a.z - h.2),
        (b.x - h.0, b.y - h.1, b.z - h.2),
    ))
}

/// The parametric distance at which the ray crosses the triangle's plane,
/// rounded toward minus infinity, or none when parallel.
pub open spec fn tri_plane_t(t: Triangle, r: Ray) -> Option<int> {
    let nd = sdot(t.normal, r.direction);
    let nn = tdot(vtup(t.normal), tsub(t.p1, r.origin));
    if nd == 0 {
        None
    } else if nd > 0 {
        Some(nn * (SCALE as int) / nd)
    } else {
        Some((-nn) * (SCALE as int) / (-nd))
    }
}

/// The full intersection predicate: the plane crossing parameter if it lies
/// in `[t0, t1)` and the crossing point passes both barycentric sign tests
/// against a positive denominator.
pub open spec fn tri_hit(tri: Triangle, r: Ray, t0: int, t1: int) -> Option<int> {
    match tri_plane_t(tri, r) {
        None => None,
        Some(t) => {
            if !(t0 <= t < t1) {
                None
            } else {
                let h = ray_at(r, t);
                let c1 = corner_num(tri.normal, tri.p3, tri.p1, h);
                let c2 = corner_num(tri.normal, tri.p1, tri.p2, h);
                if tri.denominator > 0 && c1 >= 0 && c2 >= 0
                    && c1 + c2 <= tri.denominator && tri_box_contains(tri, h) {
                    Some(t)
                } else {
                    None
                }
            }
        },
    }
}

impl Triangle {
    /// Build a triangle, precomputing its unit normal and the barycentric
    /// denominator. A degenerate (collinear) triangle gets a placeholder
    /// normal and a zero denominator, so it is never hit.
    pub fn new(p1: Vec3, p2: Vec3, p3: Vec3) -> (r: Triangle)
        requires
            bounded(p1, CB as int),
            bounded(p2, CB as int),
            bounded(p3, CB as int),
        ensures
            r.p1 == p1,
            r.p2 == p2,
            r.p3 == p3,
            tri_wf(r),
    {
        let e1: Vec3 = p2.sub(p1);
        let e2: Vec3 = p3.sub(p1);
        let cr: Vec3 = e1.cross(e2);
        proof {
            lemma_edge_cross_bound(e1, e2);
        }
        let d: i128 = cr.dot_wide(cr);
        let normal: Vec3 = if d > 0 {
            cr.normalize()
        } else {
            Vec3 { x: 0, y: 0, z: SCALE }
        };
        proof {
            if d > 0 {
                crate::vec3::lemma_normalize_nonzero(cr, normal);
            }
        }
        let denominator: i128 = normal_dot_wide(normal, cr);
        proof {
            lemma_den_bound(normal, cr);
        }
        Triangle { p1, p2, p3, normal, denominator }
    }

    /// Intersect a ray with the triangle over the half-open interval
    /// `[t0, t1)`. A returned record carries exactly the parameter the
    /// mathematical predicate names; the barycentric numerators at its hit
    /// point are non-negative and sum to at most the denominator.
    pub fn hits<'a>(&self, ray: &Ray, t0: i64, t1: i64, material: &'a Material) -> (r: Option<
        HitRecord<'a>,
    >)
        requires
            tri_wf(*self),
            ray_wf(*ray),
            mat_wf(*material),
            0 <= t0 <= t1 <= T_MAX,
        ensures
            r is Some <==> tri_hit(*self, *ray, t0 as int, t1 as int) is Some,
            r matches Some(h) ==> {
                &&& Some(h.t as int) == tri_hit(*self, *ray, t0 as int, t1 as int)
                &&& t0 <= h.t < t1
                &&& vtup(h.hit_point) == ray_at(*ray, h.t as int)
                &&& h.front_face == (sdot(self.normal, ray.direction) < 0)
                &&& (h.front_face ==> h.normal == self.normal)
                &&& (!h.front_face ==> vtup(h.normal) == (
                    -self.normal.x as int,
                    -self.normal.y as int,
                    -self.normal.z as int,
                ))
                &&& corner_num(self.normal, self.p3, self.p1, vtup(h.hit_point)) >= 0
                &&& corner_num(self.normal, self.p1, self.p2, vtup(h.hit_point)) >= 0
                &&& corner_num(self.normal, self.p3, self.p1, vtup(h.hit_point))
                    + corner_num(self.normal, self.p1, self.p2, vtup(h.hit_point))
                    <= self.denominator
                &&& h.ray == *ray
                &&& h.material == material
                &&& hit_wf(h)
            },
    {
        let nd: i64 = self.normal.dot(ray.direction);
        if nd == 0 {
            return None;
        }
        let diff: Vec3 = self.p1.sub(ray.origin);
        let nn: i64 = self.normal.dot(diff);
        proof {
            assert(-0x2000_0000_0000 <= sdot(self.normal, diff) <= 0x2000_0000_0000)
                by (nonlinear_arith)
                requires
                    bounded(self.normal, SCALE as int),
                    bounded(diff, 2 * CB as int);
            assert(-0x2000_0000_0000 <= sdot(self.normal, ray.direction) <= 0x2000_0000_0000)
                by (nonlinear_arith)
                requires
                    bounded(self.normal, SCALE as int),
                    bounded(ray.direction, crate::ray::DB as int);
        }
        let (num, den): (i64, i64) = if nd > 0 {
            (nn, nd)
        } else {
            (-nn, -nd)
        };
        let tw: i128 = div_floor((num as i128) * (SCALE as i128), den as i128);
        proof {
            lemma_plane_t_matches(*self, *ray, nn as int, nd as int);
        }
        if tw < t0 as i128 || tw >= t1 as i128 {
            return None;
        }
        let t: i64 = tw as i64;
        let hit_point: Vec3 = ray.at(t);
        if !self.box_check(hit_point) {
            return None;
        }
        let c1: i128 = corner_num_exec(self.normal, self.p3, self.p1, hit_point);
        let c2: i128 = corner_num_exec(self.normal, self.p1, self.p2, hit_point);
        if !(self.denominator > 0 && c1 >= 0 && c2 >= 0 && c1 + c2 <= self.denominator) {
            return None;
        }
        let hr: HitRecord<'a> = HitRecord::new(t, hit_point, ray, self.normal, material);
        Some(hr)
    }
}

impl Triangle {
    /// Whether a point lies within the padded vertex bounding box.
    fn box_check(&self, h: Vec3) -> (r: bool)
        requires
            tri_wf(*self),
            bounded(h, PB as int),
        ensures
            r == tri_box_contains(*self, vtup(h)),
    {
        let lox: i64 = min3i(self.p1.x, self.p2.x, self.p3.x);
        let hix: i64 = max3i(self.p1.x, self.p2.x, self.p3.x);
        let loy: i64 = min3i(self.p1.y, self.p2.y, self.p3.y);
        let hiy: i64 = max3i(self.p1.y, self.p2.y, self.p3.y);
        let loz: i64 = min3i(self.p1.z, self.p2.z, self.p3.z);
        let hiz: i64 = max3i(self.p1.z, self.p2.z, self.p3.z);
        lox - 7 <= h.x && h.x <= hix + 7 && loy - 7 <= h.y && h.y <= hiy + 7 && loz - 7 <= h.z
            && h.z <= hiz + 7
    }
}

/// The least of three scalars.
fn min3i(a: i64, b: i64, c: i64) -> (r: i64)
    ensures
        r == smin3(a as int, b as int, c as int),
{
    if a <= b && a <= c {
        a
    } else if b <= c {
        b
    } else {
        c
    }
}

/// The greatest of three scalars.
fn max3i(a: i64, b: i64, c: i64) -> (r: i64)
    ensures
        r == smax3(a as int, b as int, c as int),
{
    if a >= b && a >= c {
        a
    } else if b >= c {
        b
    } else {
        c
    }
}

/// One barycentric numerator, computed exactly in 128 bits.
fn corner_num_exec(n: Vec3, a: Vec3, b: Vec3, h: Vec3) -> (r: i128)
    requires
        bounded(n, SCALE as int),
        bounded(a, CB as int),
        bounded(b, CB as int),
        bounded(h, PB as int),
    ensures
        r == corner_num(n, a, b, vtup(h)),
        -0x4_0000_0000_0000_0000_0000_0000_0000 <= r <= 0x4_0000_0000_0000_0000_0000_0000_0000,
{
    let ux: i128 = (a.x as i128) - (h.x as i128);
    let uy: i128 = (a.y as i128) - (h.y as i128);
    let uz: i128 = (a.z as i128) - (h.z as i128);
    let vx: i128 = (b.x as i128) - (h.x as i128);
    let vy: i128 = (b.y as i128) - (h.y as i128);
    let vz: i128 = (b.z as i128) - (h.z as i128);
    proof {
        lemma_corner_products_bound(
            ux as int, uy as int, uz as int, vx as int, vy as int, vz as int,
            n.x as int, n.y as int, n.z as int,
        );
    }
    let cx: i128 = uy * vz - uz * vy;
    let cy: i128 = uz * vx - ux * vz;
    let cz: i128 = ux * vy - uy * vx;
    (n.x as i128) * cx + (n.y as i128) * cy + (n.z as i128) * cz
}

/// All products appearing in a barycentric numerator stay far inside the
/// 128-bit range for bounded inputs.
proof fn lemma_corner_products_bound(
    ux: int, uy: int, uz: int, vx: int, vy: int, vz: int, nx: int, ny: int, nz: int,
)
    by (nonlinear_arith)
    requires
        -0x8000_0000_0000 <= ux <= 0x8000_0000_0000,
        -0x8000_0000_0000 <= uy <= 0x8000_0000_0000,
        -0x8000_0000_0000 <= uz <= 0x8000_0000_0000,
        -0x8000_0000_0000 <= vx <= 0x8000_0000_0000,
        -0x8000_0000_0000 <= vy <= 0x8000_0000_0000,
        -0x8000_0000_0000 <= vz <= 0x8000_0000_0000,
        -0x1_0000 <= nx <= 0x1_0000,
        -0x1_0000 <= ny <= 0x1_0000,
        -0x1_0000 <= nz <= 0x1_0000,
    ensures
        -0x1_0000_0000_0000_0000_0000_0000 <= uy * vz <= 0x1_0000_0000_0000_0000_0000_0000,
        -0x1_0000_0000_0000_0000_0000_0000 <= uz * vy <= 0x1_0000_0000_0000_0000_0000_0000,
        -0x1_0000_0000_0000_0000_0000_0000 <= uz * vx <= 0x1_0000_0000_0000_0000_0000_0000,
        -0x1_0000_0000_0000_0000_0000_0000 <= ux * vz <= 0x1_0000_0000_0000_0000_0000_0000,
        -0x1_0000_0000_0000_0000_0000_0000 <= ux * vy <= 0x1_0000_0000_0000_0000_0000_0000,
        -0x1_0000_0000_0000_0000_0000_0000 <= uy * vx <= 0x1_0000_0000_0000_0000_0000_0000,
        -0x1_0000_0000_0000_0000_0000_0000_0000 <= nx * (uy * vz - uz * vy)
            <= 0x1_0000_0000_0000_0000_0000_0000_0000,
        -0x1_0000_0000_0000_0000_0000_0000_0000 <= ny * (uz * vx - ux * vz)
            <= 0x1_0000_0000_0000_0000_0000_0000_0000,
        -0x1_0000_0000_0000_0000_0000_0000_0000 <= nz * (ux * vy - uy * vx)
            <= 0x1_0000_0000_0000_0000_0000_0000_0000,
{
}

/// The sign-normalized exec computation agrees with `tri_plane_t`.
proof fn lemma_plane_t_matches(tri: Triangle, r: Ray, nn: int, nd: int)
    requires
        nd == sdot(tri.normal, r.direction),
        nn == tdot(vtup(tri.normal), tsub(tri.p1, r.origin)),
        nd != 0,
    ensures
        nd > 0 ==> tri_plane_t(tri, r) == Some(nn * (SCALE as int) / nd),
        nd < 0 ==> tri_plane_t(tri, r) == Some((-nn) * (SCALE as int) / (-nd)),
{
}

/// Edge vectors of bounded vertices give a cross product bounded well
/// inside the dot-product range.
proof fn lemma_edge_cross_bound(e1: Vec3, e2: Vec3)
    by (nonlinear_arith)
    requires
        bounded(e1, 2 * CB as int),
        bounded(e2, 2 * CB as int),
    ensures
        scross(e1, e2).0 <= 0x100_0000_0000_0000,
        scross(e1, e2).0 >= -0x100_0000_0000_0000,
        scross(e1, e2).1 <= 0x100_0000_0000_0000,
        scross(e1, e2).1 >= -0x100_0000_0000_0000,
        scross(e1, e2).2 <= 0x100_0000_0000_0000,
        scross(e1, e2).2 >= -0x100_0000_0000_0000,
{
}

/// The denominator of a well-formed triangle is bounded.
proof fn lemma_den_bound(n: Vec3, cr: Vec3)
    by (nonlinear_arith)
    requires
        bounded(n, SCALE as int),
        bounded(cr, 0x100_0000_0000_0000),
    ensures
        -TRI_DEN_MAX <= sdot(n, cr) <= TRI_DEN_MAX,
{
}

/// `n . cr` computed in 128 bits.
fn normal_dot_wide(n: Vec3, cr: Vec3) -> (r: i128)
    requires
        bounded(n, SCALE as int),
        bounded(cr, 0x100_0000_0000_0000),
    ensures
        r == sdot(n, cr),
{
    n.dot_wide(cr)
}

} // verus!
