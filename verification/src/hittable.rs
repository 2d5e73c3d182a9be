//! The record produced by a successful ray-shape intersection.

use vstd::prelude::*;
use crate::fx::{SCALE, FX_ARG_MAX};
use crate::material::{Material, mat_wf};
use crate::ray::{Ray, ray_wf, PB, T_MAX};
use crate::vec3::{Vec3, bounded, sdot};

verus! {

/// What an intersection yields: the parametric distance, the hit point, the
/// surface normal oriented against the incoming ray, the surface
/// coordinates, and a borrow of the material at the hit.
pub struct HitRecord<'a> {
    pub t: i64,
    pub hit_point: Vec3,
    pub normal: Vec3,
    pub ray: Ray,
    pub front_face: bool,
    pub u: i64,
    pub v: i64,
    pub material: &'a Material,
}

/// Bounds every intersection routine guarantees of the records it builds.
pub open spec fn hit_wf(h: HitRecord) -> bool {
    &&& 0 <= h.t <= T_MAX
    &&& bounded(h.hit_point, PB as int)
    &&& bounded(h.normal, SCALE as int)
    &&& sdot(h.normal, h.normal) > 0
    &&& ray_wf(h.ray)
    &&& -FX_ARG_MAX <= h.u <= FX_ARG_MAX
    &&& -FX_ARG_MAX <= h.v <= FX_ARG_MAX
    &&& mat_wf(*h.material)
}

impl<'a> HitRecord<'a> {
    /// Build a record, orienting the outward normal against the ray: the
    /// `front_face` flag records whether the ray met the surface from the
    /// side the outward normal points to.
    pub fn new(
        t: i64,
        hit_point: Vec3,
        ray: &Ray,
        outward_normal: Vec3,
        material: &'a Material,
    ) -> (r: HitRecord<'a>)
        requires
            bounded(outward_normal, SCALE as int),
            bounded(ray.direction, 0x4000_0000),
        ensures
            r.t == t,
            r.hit_point == hit_point,
            r.ray == *ray,
            r.front_face == (sdot(outward_normal, ray.direction) < 0),
            r.front_face ==> r.normal == outward_normal,
            !r.front_face ==> (r.normal.x == -outward_normal.x
                && r.normal.y == -outward_normal.y && r.normal.z == -outward_normal.z),
            r.u == 0,
            r.v == 0,
            r.material == material,
            bounded(r.normal, SCALE as int),
            sdot(outward_normal, outward_normal) > 0 ==> sdot(r.normal, r.normal) > 0,
    {
        let front_face: bool = outward_normal.dot(ray.direction) < 0;
        let normal: Vec3 = if front_face {
            outward_normal
        } else {
            outward_normal.neg()
        };
        proof {
            if !front_face {
                lemma_neg_preserves_sq(outward_normal);
            }
        }
        HitRecord {
            t,
            hit_point,
            normal,
            ray: *ray,
            front_face,
            material,
            u: 0,
            v: 0,
        }
    }

    pub fn set_uv(&mut self, uv: (i64, i64))
        ensures
            final(self).u == uv.0,
            final(self).v == uv.1,
            final(self).t == old(self).t,
            final(self).hit_point == old(self).hit_point,
            final(self).normal == old(self).normal,
            final(self).ray == old(self).ray,
            final(self).front_face == old(self).front_face,
            final(self).material == old(self).material,
    {
        self.u = uv.0;
        self.v = uv.1;
    }
}

proof fn lemma_neg_preserves_sq(v: Vec3)
    by (nonlinear_arith)
    requires
        bounded(v, 0x7FFF_FFFF_FFFF_FFFF),
    ensures
        sdot(
            (Vec3 { x: -v.x as i64, y: -v.y as i64, z: -v.z as i64 }),
            (Vec3 { x: -v.x as i64, y: -v.y as i64, z: -v.z as i64 }),
        ) == sdot(v, v),
{
}

} // verus!
