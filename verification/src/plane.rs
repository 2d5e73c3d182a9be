//! Infinite planes, optionally clipped to a disk.

use vstd::prelude::*;
use crate::fx::{div_floor, SCALE};
use crate::hittable::{HitRecord, hit_wf};
use crate::material::{Material, mat_wf};
use crate::ray::{Ray, ray_wf, ray_at, CB, DB, T_MAX};
use crate::vec3::{Vec3, bounded, sdot, tsub, tdot, vtup};

verus! {

pub struct Plane {
    pub center: Vec3,
    pub normal: Vec3,
    pub radius: Option<i64>,
    pub material: Material,
}

pub open spec fn plane_wf(p: Plane) -> bool {
    &&& bounded(p.center, CB as int)
    &&& bounded(p.normal, SCALE as int)
    &&& sdot(p.normal, p.normal) > 0
    &&& (p.radius matches Some(r) ==> 0 < r <= CB)
    &&& mat_wf(p.material)
}

/// The plane crossing parameter, or none when the ray runs parallel.
pub open spec fn plane_t(p: Plane, r: Ray) -> Option<int> {
    let nd = sdot(p.normal, r.direction);
    let nn = tdot(vtup(p.normal), tsub(p.center, r.origin));
    if nd == 0 {
        None
    } else if nd > 0 {
        Some(nn * (SCALE as int) / nd)
    } else {
        Some((-nn) * (SCALE as int) / (-nd))
    }
}

/// The full intersection predicate: the crossing parameter if it lies in
/// `[t0, t1)` and, for a disk-clipped plane, the crossing point is within
/// the radius of the center.
pub open spec fn plane_hit(p: Plane, r: Ray, t0: int, t1: int) -> Option<int> {
    match plane_t(p, r) {
        None => None,
        Some(t) => {
            if !(t0 <= t < t1) {
                None
            } else {
                let h = ray_at(r, t);
                let off = (h.0 - p.center.x, h.1 - p.center.y, h.2 - p.center.z);
                match p.radius {
                    None => Some(t),
                    Some(rad) => {
                        if tdot(off, off) > rad * rad {
                            None
                        } else {
                            Some(t)
                        }
                    },
                }
            }
        },
    }
}

/// Shrinking the upper end of the interval keeps exactly the hits below it.
pub proof fn lemma_plane_hit_shrink(p: Plane, r: Ray, t0: int, c: int, t1: int)
    requires
        t0 <= c <= t1,
    ensures
        plane_hit(p, r, t0, c) == (match plane_hit(p, r, t0, t1) {
            Some(t) => if t < c {
                Some(t)
            } else {
                None::<int>
            },
            None => None::<int>,
        }),
{
}

impl Plane {
    /// Intersect a ray over `[t0, t1)`: exactly the parameter named by
    /// `plane_hit`.
    pub fn hits<'a>(&'a self, ray: &Ray, t0: i64, t1: i64) -> (r: Option<HitRecord<'a>>)
        requires
            plane_wf(*self),
            ray_wf(*ray),
            0 <= t0 <= t1 <= T_MAX,
        ensures
            r is Some <==> plane_hit(*self, *ray, t0 as int, t1 as int) is Some,
            r matches Some(h) ==> {
                &&& Some(h.t as int) == plane_hit(*self, *ray, t0 as int, t1 as int)
                &&& t0 <= h.t < t1
                &&& vtup(h.hit_point) == ray_at(*ray, h.t as int)
                &&& h.front_face == (sdot(self.normal, ray.direction) < 0)
                &&& (h.front_face ==> h.normal == self.normal)
                &&& (!h.front_face ==> vtup(h.normal) == (
                    -self.normal.x as int,
                    -self.normal.y as int,
                    -self.normal.z as int,
                ))
                &&& h.ray == *ray
                &&& h.material == self.material
                &&& hit_wf(h)
            },
    {
        let nd: i64 = self.normal.dot(ray.direction);
        if nd == 0 {
            return None;
        }
        let diff: Vec3 = self.center.sub(ray.origin);
        let nn: i64 = self.normal.dot(diff);
        proof {
            assert(-0x2000_0000_0000 <= sdot(self.normal, diff) <= 0x2000_0000_0000)
                by (nonlinear_arith)
                requires
                    bounded(self.normal, SCALE as int),
                    bounded(diff, 2 * CB as int);
            assert(-0x2000_0000_0000 <= sdot(self.normal, ray.direction) <= 0x2000_0000_0000)
                by (nonlinear_arith)
                requires
                    bounded(self.normal, SCALE as int),
                    bounded(ray.direction, DB as int);
        }
        let (num, den): (i64, i64) = if nd > 0 {
            (nn, nd)
        } else {
            (-nn, -nd)
        };
        let tw: i128 = div_floor((num as i128) * (SCALE as i128), den as i128);
        if tw < t0 as i128 || tw >= t1 as i128 {
            return None;
        }
        let t: i64 = tw as i64;
        let hit_point: Vec3 = ray.at(t);
        if let Some(rad) = self.radius {
            let off: Vec3 = hit_point.sub(self.center);
            let dsq: i128 = off.dot_wide(off);
            proof {
                assert(0 <= (rad as int) * (rad as int) <= 0x10_0000_0000_0000)
                    by (nonlinear_arith)
                    requires
                        0 < rad as int <= CB as int;
            }
            let rsq: i128 = (rad as i128) * (rad as i128);
            if dsq > rsq {
                return None;
            }
        }
        let hr: HitRecord<'a> = HitRecord::new(t, hit_point, ray, self.normal, &self.material);
        Some(hr)
    }
}

} // verus!
