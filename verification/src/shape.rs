//! The closed set of shapes a scene is made of, with closest-hit dispatch
//! and light-sampling hooks.

use vstd::prelude::*;
use crate::constant_medium::{ConstantMedium, SmokeCube, medium_wf};
use crate::fx::SCALE;
use crate::hittable::{HitRecord, hit_wf};
use crate::material::{Material, mat_wf};
use crate::mesh::{Mesh, mesh_wf, fold_hit, lemma_fold_hit_shrink};
use crate::plane::{Plane, plane_wf, plane_hit, lemma_plane_hit_shrink};
use crate::quadrilateral::{Quadrilateral, quad_wf, quad_hit, quad_pdf_density, lemma_quad_hit_shrink};
use crate::ray::{Ray, ray_wf, CB, DB, T_MAX};
use crate::sphere::{Sphere, sphere_wf, sphere_hit, sphere_pdf_density, lemma_sphere_hit_shrink};
use crate::texture::CMAX;
use crate::mesh::lemma_tri_hit_shrink;
use crate::triangle::tri_hit;
use crate::util::rand_below;
use crate::vec3::{Vec3, bounded};

verus! {

broadcast use vstd::std_specs::vec::axiom_vec_index_decreases;

pub enum Shape {
    Quadrilateral(Quadrilateral),
    SmokeCube(SmokeCube),
    Sphere(Sphere),
    Plane(Plane),
    Mesh(Mesh),
    List(Vec<Shape>),
}

/// Every member of the scene is well-formed; lists may nest.
pub open spec fn shape_wf(s: Shape) -> bool
    decreases s,
{
    match s {
        Shape::Quadrilateral(q) => quad_wf(q),
        Shape::SmokeCube(m) => medium_wf(m),
        Shape::Sphere(sp) => sphere_wf(sp),
        Shape::Plane(p) => plane_wf(p),
        Shape::Mesh(m) => mesh_wf(m),
        Shape::List(v) => forall|i: int| 0 <= i < v.len() ==> shape_wf(#[trigger] v[i]),
    }
}

/// The density with which light sampling toward a shape draws a given
/// direction, as a mathematical function. A list averages its members.
pub open spec fn shape_density(s: Shape, o: Vec3, d: Vec3) -> int
    decreases s, 1int,
{
    match s {
        Shape::Sphere(sp) => sphere_pdf_density(sp, o, d),
        Shape::Quadrilateral(q) => quad_pdf_density(q, o, d),
        Shape::List(v) => {
            if v.len() == 0 {
                0
            } else {
                let avg = list_density_sum(v, o, d, v.len() as int) / (v.len() as int);
                if avg > 0x8000_0000_0000 {
                    0x8000_0000_0000
                } else {
                    avg
                }
            }
        },
        _ => 0,
    }
}

/// The sum of the first `n` members' densities.
pub open spec fn list_density_sum(v: Vec<Shape>, o: Vec3, d: Vec3, n: int) -> int
    decreases v, n,
{
    if n <= 0 || n > v.len() {
        0
    } else {
        list_density_sum(v, o, d, n - 1) + shape_density(v[n - 1], o, d)
    }
}

impl Shape {
    pub fn sphere(center: Vec3, radius: i64, material: Material) -> (r: Shape)
        requires
            bounded(center, crate::sphere::SB as int),
            0 < radius <= crate::sphere::SB,
            mat_wf(material),
        ensures
            shape_wf(r),
            r matches Shape::Sphere(sp) && sp.center.origin == center && sp.radius == radius
                && sp.material == material,
    {
        Shape::Sphere(Sphere::new(center, radius, material))
    }

    pub fn moving_sphere(center1: Vec3, center2: Vec3, radius: i64, material: Material) -> (r:
        Shape)
        requires
            bounded(center1, 0x100_0000),
            bounded(center2, 0x100_0000),
            0 < radius <= crate::sphere::SB,
            mat_wf(material),
        ensures
            shape_wf(r),
            r matches Shape::Sphere(sp) && sp.center.origin == center1 && sp.radius == radius
                && sp.material == material,
    {
        Shape::Sphere(Sphere::moving(center1, center2, radius, material))
    }

    pub fn plane(center: Vec3, normal: Vec3, material: Material) -> (r: Option<Shape>)
        requires
            bounded(center, CB as int),
            bounded(normal, SCALE as int),
            mat_wf(material),
        ensures
            r matches Some(s) ==> {
                &&& shape_wf(s)
                &&& s matches Shape::Plane(p) && p.center == center && p.normal == normal
                    && p.radius is None && p.material == material
            },
            r is None <==> crate::vec3::sdot(normal, normal) == 0,
    {
        if normal.dot(normal) == 0 {
            return None;
        }
        proof {
            lemma_self_dot_nonneg(normal);
        }
        Some(Shape::Plane(Plane { center, normal, radius: None, material }))
    }

    pub fn quadrilateral(starting_corner: Vec3, u: Vec3, v: Vec3, material: Material) -> (r:
        Option<Shape>)
        requires
            bounded(starting_corner, crate::quadrilateral::QB as int),
            bounded(u, crate::quadrilateral::QB as int),
            bounded(v, crate::quadrilateral::QB as int),
            mat_wf(material),
        ensures
            r matches Some(s) ==> {
                &&& shape_wf(s)
                &&& s matches Shape::Quadrilateral(q) && q.starting_corner == starting_corner
                    && q.u == u && q.v == v && q.material == material
            },
            r is None <==> crate::vec3::tdot(
                crate::vec3::tcross(crate::vec3::vtup(u), crate::vec3::vtup(v)),
                crate::vec3::tcross(crate::vec3::vtup(u), crate::vec3::vtup(v)),
            ) == 0,
    {
        match Quadrilateral::new(starting_corner, u, v, material) {
            None => None,
            Some(q) => Some(Shape::Quadrilateral(q)),
        }
    }

    pub fn smoke_box(boundary: Mesh, density: i64, albedo: Vec3) -> (r: Shape)
        requires
            mesh_wf(boundary),
            0 < density <= 0x1_0000_0000,
            bounded(albedo, CMAX as int),
        ensures
            shape_wf(r),
            r matches Shape::SmokeCube(m) && m.boundary == boundary,
    {
        Shape::SmokeCube(ConstantMedium::new(boundary, density, albedo))
    }

    pub fn mesh(triangles: Vec<crate::triangle::Triangle>, material: Material) -> (r: Shape)
        requires
            1 <= triangles.len() <= 0x10_0000,
            forall|k: int|
                0 <= k < triangles.len() ==> crate::triangle::tri_wf(#[trigger] triangles[k]),
            mat_wf(material),
        ensures
            shape_wf(r),
            r matches Shape::Mesh(m) && m.triangles == triangles && m.material == material,
    {
        Shape::Mesh(Mesh::new(triangles, material))
    }

    pub fn list(shapes: Vec<Shape>) -> (r: Shape)
        requires
            forall|i: int| 0 <= i < shapes.len() ==> shape_wf(#[trigger] shapes[i]),
        ensures
            shape_wf(r),
            r == Shape::List(shapes),
    {
        Shape::List(shapes)
    }

    /// Closest hit over the half-open interval `[t0, t1)`. The analytic
    /// primitives return exactly the parameter of their mathematical hit
    /// predicate; for meshes, volumes and lists every returned record is a
    /// genuine in-interval hit.
    pub fn hits(&self, ray: &Ray, t0: i64, t1: i64) -> (r: Option<HitRecord>)
        requires
            shape_wf(*self),
            ray_wf(*ray),
            0 <= t0 <= t1 <= T_MAX,
        ensures
            r matches Some(h) ==> t0 <= h.t < t1 && hit_wf(h),
            *self matches Shape::Sphere(sp) ==> {
                &&& (r is Some <==> sphere_hit(sp, *ray, t0 as int, t1 as int) is Some)
                &&& (r matches Some(h) ==> Some(h.t as int) == sphere_hit(
                    sp,
                    *ray,
                    t0 as int,
                    t1 as int,
                ))
            },
            *self matches Shape::Plane(p) ==> {
                &&& (r is Some <==> plane_hit(p, *ray, t0 as int, t1 as int) is Some)
                &&& (r matches Some(h) ==> Some(h.t as int) == plane_hit(
                    p,
                    *ray,
                    t0 as int,
                    t1 as int,
                ))
            },
            *self matches Shape::Quadrilateral(q) ==> {
                &&& (r is Some <==> quad_hit(q, *ray, t0 as int, t1 as int) is Some)
                &&& (r matches Some(h) ==> Some(h.t as int) == quad_hit(
                    q,
                    *ray,
                    t0 as int,
                    t1 as int,
                ))
            },
            *self matches Shape::Mesh(m) ==> {
                &&& (r is Some <==> fold_hit(m.triangles@, *ray, t0 as int, t1 as int) is Some)
                &&& (r matches Some(h) ==> Some(h.t as int) == fold_hit(
                    m.triangles@,
                    *ray,
                    t0 as int,
                    t1 as int,
                ))
            },
            shape_surely_misses(*self, *ray, t0 as int, t1 as int) ==> r is None,
            *self matches Shape::List(v) ==> {
                &&& (r is None ==> forall|i: int|
                    0 <= i < v.len() ==> member_hit_bound(
                        #[trigger] v[i],
                        *ray,
                        t0 as int,
                        t1 as int,
                        None::<int>,
                    ))
                &&& (r matches Some(h) ==> forall|i: int|
                    0 <= i < v.len() ==> member_hit_bound(
                        #[trigger] v[i],
                        *ray,
                        t0 as int,
                        t1 as int,
                        Some(h.t as int),
                    ))
                &&& (r matches Some(h) ==> exists|i: int|
                    0 <= i < v.len() && member_hit_witness(
                        #[trigger] v[i],
                        *ray,
                        t0 as int,
                        t1 as int,
                        h.t as int,
                    ))
            },
        decreases *self,
    {
        match self {
            Shape::Quadrilateral(q) => q.hits(ray, t0, t1),
            Shape::SmokeCube(m) => m.hits(ray, t0, t1),
            Shape::Sphere(sp) => sp.hits(ray, t0, t1),
            Shape::Plane(p) => p.hits(ray, t0, t1),
            Shape::Mesh(m) => m.hits(ray, t0, t1),
            Shape::List(shapes) => hits_list(shapes, ray, t0, t1),
        }
    }

    /// The density with which light sampling draws a direction from
    /// `origin` toward this shape: the sphere's and the patch's cone and
    /// solid-angle densities, the uniform average over a list's members,
    /// zero for shapes that take no part in importance sampling.
    pub fn pdf_value(&self, origin: &Vec3, direction: &Vec3) -> (r: i64)
        requires
            shape_wf(*self),
            bounded(*origin, CB as int),
            bounded(*direction, DB as int),
        ensures
            0 <= r <= 0x8000_0000_0000,
            r == shape_density(*self, *origin, *direction),
        decreases *self,
    {
        match self {
            Shape::Quadrilateral(q) => q.pdf_value(origin, direction),
            Shape::Sphere(sp) => {
                let v: i64 = sp.pdf_value(origin, direction);
                proof {
                    crate::sphere::lemma_sphere_density_range(*sp, *origin, *direction);
                }
                v
            },
            Shape::List(shapes) => pdf_list(shapes, origin, direction),
            _ => 0,
        }
    }

    /// Draw a near-unit direction from `origin` toward this shape; a list
    /// delegates to a uniformly chosen member. Shapes that take no part in
    /// importance sampling yield a fixed axis.
    pub fn random(&self, origin: &Vec3) -> (r: Vec3)
        requires
            shape_wf(*self),
            bounded(*origin, CB as int),
        ensures
            bounded(r, 8 * SCALE as int),
            (*self matches Shape::Plane(_) || *self matches Shape::Mesh(_) || *self
                matches Shape::SmokeCube(_)) ==> r == (Vec3 { x: SCALE, y: 0i64, z: 0i64 }),
            *self matches Shape::Sphere(sp) ==> crate::sphere::sphere_sample_rel(
                sp,
                *origin,
                r,
            ),
            *self matches Shape::Quadrilateral(q) ==> exists|a: int, b: int|
                0 <= a < SCALE && 0 <= b < SCALE && crate::quadrilateral::quad_random_rel(
                    q,
                    *origin,
                    a,
                    b,
                    r,
                ),
            shape_sample_rel(*self, *origin, r),
        decreases *self,
    {
        match self {
            Shape::Quadrilateral(q) => q.random(origin),
            Shape::Sphere(sp) => sp.random(origin),
            Shape::List(shapes) => random_list(shapes, origin),
            _ => Vec3 { x: SCALE, y: 0, z: 0 },
        }
    }
}

/// The uniform average of the members' sampling densities.
fn pdf_list(shapes: &Vec<Shape>, origin: &Vec3, direction: &Vec3) -> (r: i64)
    requires
        forall|j: int| 0 <= j < shapes.len() ==> shape_wf(#[trigger] shapes[j]),
        bounded(*origin, CB as int),
        bounded(*direction, DB as int),
    ensures
        0 <= r <= 0x8000_0000_0000,
        r == shape_density(Shape::List(*shapes), *origin, *direction),
    decreases *shapes,
{
    let n: usize = shapes.len();
    if n == 0 {
        return 0;
    }
    let mut sum: i128 = 0;
    let mut i: usize = 0;
    while i < n
        invariant
            i <= n == shapes.len(),
            forall|j: int| 0 <= j < shapes.len() ==> shape_wf(#[trigger] shapes[j]),
            bounded(*origin, CB as int),
            bounded(*direction, DB as int),
            0 <= sum <= (i as int) * 0x8000_0000_0000,
            sum == list_density_sum(*shapes, *origin, *direction, i as int),
        decreases n - i,
    {
        proof {
            assert((i as int) * 0x8000_0000_0000 + 0x8000_0000_0000
                == (i as int + 1) * 0x8000_0000_0000) by (nonlinear_arith);
            assert((i as int + 1) * 0x8000_0000_0000
                <= 0x10_0000_0000_0000_0000 * 0x8000_0000_0000) by (nonlinear_arith)
                requires
                    0 <= i as int + 1 <= 0x10_0000_0000_0000_0000;
        }
        let v: i64 = shapes[i].pdf_value(origin, direction);
        sum = sum + (v as i128);
        i = i + 1;
    }
    let avg: i128 = crate::fx::div_floor(sum, n as i128);
    proof {
        crate::fx::lemma_div_mag(sum as int, n as int);
    }
    if avg > 0x8000_0000_0000 {
        0x8000_0000_0000
    } else {
        avg as i64
    }
}

/// The drawn direction stands in the shape's own sampling relation: the
/// sphere's cone draw, the patch's jittered-point draw, a fixed axis for
/// shapes that take no part in importance sampling, and for a list some
/// member's relation.
pub open spec fn shape_sample_rel(s: Shape, origin: Vec3, r: Vec3) -> bool
    decreases s,
{
    match s {
        Shape::Sphere(sp) => crate::sphere::sphere_sample_rel(sp, origin, r),
        Shape::Quadrilateral(q) => exists|a: int, b: int|
            0 <= a < SCALE && 0 <= b < SCALE && crate::quadrilateral::quad_random_rel(
                q,
                origin,
                a,
                b,
                r,
            ),
        Shape::List(v) => (v.len() == 0 && r == (Vec3 { x: SCALE, y: 0i64, z: 0i64 }))
            || exists|i: int| 0 <= i < v.len() && shape_sample_rel(#[trigger] v[i], origin, r),
        _ => r == (Vec3 { x: SCALE, y: 0i64, z: 0i64 }),
    }
}

/// A direction toward a uniformly chosen member.
fn random_list(shapes: &Vec<Shape>, origin: &Vec3) -> (r: Vec3)
    requires
        forall|j: int| 0 <= j < shapes.len() ==> shape_wf(#[trigger] shapes[j]),
        bounded(*origin, CB as int),
    ensures
        bounded(r, 8 * SCALE as int),
        shape_sample_rel(Shape::List(*shapes), *origin, r),
    decreases *shapes,
{
    if shapes.len() == 0 {
        Vec3 { x: SCALE, y: 0, z: 0 }
    } else {
        let i: usize = rand_below(shapes.len() as u64) as usize;
        let r: Vec3 = shapes[i].random(origin);
        proof {
            assert(shape_sample_rel(shapes@[i as int], *origin, r));
        }
        r
    }
}

/// No part of the shape can be hit inside the interval, whatever any
/// random draw does: the analytic predicates miss, every mesh triangle
/// misses, and a volume's boundary scan misses.
pub open spec fn shape_surely_misses(s: Shape, r: Ray, t0: int, t1: int) -> bool
    decreases s,
{
    match s {
        Shape::Sphere(sp) => sphere_hit(sp, r, t0, t1) is None,
        Shape::Plane(p) => plane_hit(p, r, t0, t1) is None,
        Shape::Quadrilateral(q) => quad_hit(q, r, t0, t1) is None,
        Shape::Mesh(m) => forall|k: int|
            0 <= k < m.triangles.len() ==> tri_hit(#[trigger] m.triangles[k], r, t0, t1) is None,
        Shape::SmokeCube(c) => forall|k: int|
            0 <= k < c.boundary.triangles.len() ==> tri_hit(
                #[trigger] c.boundary.triangles[k],
                r,
                0,
                T_MAX as int,
            ) is None,
        Shape::List(v) => forall|i: int|
            0 <= i < v.len() ==> shape_surely_misses(#[trigger] v[i], r, t0, t1),
    }
}

/// A sure miss over an interval is a sure miss over any initial part of it.
pub proof fn lemma_surely_misses_shrink(s: Shape, r: Ray, t0: int, c: int, t1: int)
    requires
        t0 <= c <= t1,
        shape_surely_misses(s, r, t0, t1),
    ensures
        shape_surely_misses(s, r, t0, c),
    decreases s,
{
    match s {
        Shape::Sphere(sp) => {
            crate::sphere::lemma_sphere_hit_shrink(sp, r, t0, c, t1);
        },
        Shape::Plane(p) => {
            crate::plane::lemma_plane_hit_shrink(p, r, t0, c, t1);
        },
        Shape::Quadrilateral(q) => {
            crate::quadrilateral::lemma_quad_hit_shrink(q, r, t0, c, t1);
        },
        Shape::Mesh(m) => {
            assert forall|k: int|
                0 <= k < m.triangles.len() implies tri_hit(
                #[trigger] m.triangles[k],
                r,
                t0,
                c,
            ) is None by {
                lemma_tri_hit_shrink(m.triangles[k], r, t0, c, t1);
            };
        },
        Shape::SmokeCube(_) => {
        },
        Shape::List(v) => {
            assert forall|i: int|
                0 <= i < v.len() implies shape_surely_misses(#[trigger] v[i], r, t0, c) by {
                lemma_surely_misses_shrink(v[i], r, t0, c, t1);
            };
        },
    }
}

/// What a combined scan owes one member: when the member's own hit
/// predicate names a parameter over the full interval, the scan found
/// something at most that far. A volume's hits are drawn at random, so it
/// owes nothing here.
pub open spec fn member_hit_bound(s: Shape, r: Ray, t0: int, t1: int, res: Option<int>) -> bool {
    match s {
        Shape::Sphere(sp) => match sphere_hit(sp, r, t0, t1) {
            Some(ts) => res matches Some(tr) && tr <= ts,
            None => true,
        },
        Shape::Plane(p) => match plane_hit(p, r, t0, t1) {
            Some(ts) => res matches Some(tr) && tr <= ts,
            None => true,
        },
        Shape::Quadrilateral(q) => match quad_hit(q, r, t0, t1) {
            Some(ts) => res matches Some(tr) && tr <= ts,
            None => true,
        },
        Shape::Mesh(m) => match fold_hit(m.triangles@, r, t0, t1) {
            Some(ts) => res matches Some(tr) && tr <= ts,
            None => true,
        },
        _ => true,
    }
}

/// The parameter is a genuine hit of the member inside the interval: the
/// analytic predicates and the mesh fold name it exactly; a volume's hit
/// is drawn at random, so only its interval is owed; a nested list owes a
/// hit of one of its own members.
pub open spec fn member_hit_witness(s: Shape, r: Ray, t0: int, t1: int, t: int) -> bool
    decreases s,
{
    match s {
        Shape::Sphere(sp) => sphere_hit(sp, r, t0, t1) == Some(t),
        Shape::Plane(p) => plane_hit(p, r, t0, t1) == Some(t),
        Shape::Quadrilateral(q) => quad_hit(q, r, t0, t1) == Some(t),
        Shape::Mesh(m) => fold_hit(m.triangles@, r, t0, t1) == Some(t),
        Shape::SmokeCube(_) => t0 <= t < t1,
        Shape::List(v) => exists|i: int|
            0 <= i < v.len() && member_hit_witness(#[trigger] v[i], r, t0, t1, t),
    }
}

/// A hit witnessed over an initial part of the interval is witnessed over
/// the whole of it: the closest hit below the cut is the closest overall.
pub proof fn lemma_witness_grow(s: Shape, r: Ray, t0: int, c: int, t1: int, t: int)
    requires
        t0 <= c <= t1,
        member_hit_witness(s, r, t0, c, t),
    ensures
        member_hit_witness(s, r, t0, t1, t),
    decreases s,
{
    match s {
        Shape::Sphere(sp) => {
            lemma_sphere_hit_shrink(sp, r, t0, c, t1);
        },
        Shape::Plane(p) => {
            lemma_plane_hit_shrink(p, r, t0, c, t1);
        },
        Shape::Quadrilateral(q) => {
            lemma_quad_hit_shrink(q, r, t0, c, t1);
        },
        Shape::Mesh(m) => {
            lemma_fold_hit_shrink(m.triangles@, r, t0, c, t1);
        },
        Shape::SmokeCube(_) => {
        },
        Shape::List(v) => {
            let i = choose|i: int|
                0 <= i < v.len() && member_hit_witness(#[trigger] v[i], r, t0, c, t);
            lemma_witness_grow(v[i], r, t0, c, t1, t);
            assert(member_hit_witness(v[i], r, t0, t1, t));
        },
    }
}

/// A smaller scan result keeps every member bound.
proof fn lemma_member_bound_mono(s: Shape, r: Ray, t0: int, t1: int, told: int, tnew: int)
    requires
        member_hit_bound(s, r, t0, t1, Some(told)),
        tnew <= told,
    ensures
        member_hit_bound(s, r, t0, t1, Some(tnew)),
{
}

/// Closest hit over a list of shapes: scan the members, shrinking the
/// interval to the best hit so far. The result undercuts every analytic
/// member's own hit, and comes back empty only when no analytic member is
/// hit at all.
pub fn hits_list<'a>(shapes: &'a Vec<Shape>, ray: &Ray, t0: i64, t1: i64) -> (r: Option<HitRecord<'a>>)
    requires
        forall|i: int| 0 <= i < shapes.len() ==> shape_wf(#[trigger] shapes[i]),
        ray_wf(*ray),
        0 <= t0 <= t1 <= T_MAX,
    ensures
        r matches Some(h) ==> t0 <= h.t < t1 && hit_wf(h),
        r is None ==> forall|i: int|
            0 <= i < shapes.len() ==> member_hit_bound(
                #[trigger] shapes[i],
                *ray,
                t0 as int,
                t1 as int,
                None::<int>,
            ),
        r matches Some(h) ==> forall|i: int|
            0 <= i < shapes.len() ==> member_hit_bound(
                #[trigger] shapes[i],
                *ray,
                t0 as int,
                t1 as int,
                Some(h.t as int),
            ),
        (forall|i: int|
            0 <= i < shapes.len() ==> shape_surely_misses(
                #[trigger] shapes[i],
                *ray,
                t0 as int,
                t1 as int,
            )) ==> r is None,
        r matches Some(h) ==> exists|i: int|
            0 <= i < shapes.len() && member_hit_witness(
                #[trigger] shapes[i],
                *ray,
                t0 as int,
                t1 as int,
                h.t as int,
            ),
    decreases *shapes,
{
    let n: usize = shapes.len();
    let mut closest: i64 = t1;
    let mut best: Option<HitRecord> = None;
    let mut i: usize = 0;
    while i < n
        invariant
            i <= n == shapes.len(),
            forall|j: int| 0 <= j < shapes.len() ==> shape_wf(#[trigger] shapes[j]),
            ray_wf(*ray),
            0 <= t0 <= t1 <= T_MAX,
            t0 <= closest <= t1,
            best is None ==> closest == t1,
            best matches Some(h) ==> t0 <= h.t < t1 && h.t == closest && hit_wf(h),
            (forall|j: int|
                0 <= j < shapes.len() ==> shape_surely_misses(
                    #[trigger] shapes[j],
                    *ray,
                    t0 as int,
                    t1 as int,
                )) ==> best is None,
            best is None ==> forall|j: int|
                0 <= j < i ==> member_hit_bound(
                    #[trigger] shapes[j],
                    *ray,
                    t0 as int,
                    t1 as int,
                    None::<int>,
                ),
            best matches Some(h) ==> forall|j: int|
                0 <= j < i ==> member_hit_bound(
                    #[trigger] shapes[j],
                    *ray,
                    t0 as int,
                    t1 as int,
                    Some(h.t as int),
                ),
            best matches Some(h) ==> exists|j: int|
                0 <= j < i && member_hit_witness(
                    #[trigger] shapes[j],
                    *ray,
                    t0 as int,
                    t1 as int,
                    h.t as int,
                ),
        decreases n - i,
    {
        proof {
            if forall|j: int|
                0 <= j < shapes.len() ==> shape_surely_misses(
                    #[trigger] shapes[j],
                    *ray,
                    t0 as int,
                    t1 as int,
                ) {
                assert(shape_surely_misses(shapes[i as int], *ray, t0 as int, t1 as int));
                lemma_surely_misses_shrink(
                    shapes[i as int],
                    *ray,
                    t0 as int,
                    closest as int,
                    t1 as int,
                );
            }
            let si = shapes@[i as int];
            match si {
                Shape::Sphere(sp) => lemma_sphere_hit_shrink(
                    sp, *ray, t0 as int, closest as int, t1 as int),
                Shape::Plane(p) => lemma_plane_hit_shrink(
                    p, *ray, t0 as int, closest as int, t1 as int),
                Shape::Quadrilateral(q) => lemma_quad_hit_shrink(
                    q, *ray, t0 as int, closest as int, t1 as int),
                Shape::Mesh(m) => lemma_fold_hit_shrink(
                    m.triangles@, *ray, t0 as int, closest as int, t1 as int),
                _ => {},
            }
        }
        let hit: Option<HitRecord> = shapes[i].hits(ray, t0, closest);
        if let Some(h) = hit {
            proof {
                // the accepted record is a genuine hit of this member,
                // witnessed over the whole interval
                assert(member_hit_witness(
                    shapes@[i as int],
                    *ray,
                    t0 as int,
                    closest as int,
                    h.t as int,
                ));
                lemma_witness_grow(
                    shapes@[i as int],
                    *ray,
                    t0 as int,
                    closest as int,
                    t1 as int,
                    h.t as int,
                );
                if !(best is None) {
                    assert forall|j: int| 0 <= j < i implies member_hit_bound(
                        #[trigger] shapes[j],
                        *ray,
                        t0 as int,
                        t1 as int,
                        Some(h.t as int),
                    ) by {
                        lemma_member_bound_mono(
                            shapes[j], *ray, t0 as int, t1 as int, closest as int, h.t as int);
                    };
                }
            }
            closest = h.t;
            best = Some(h);
        }
        i = i + 1;
    }
    best
}

proof fn lemma_self_dot_nonneg(v: Vec3)
    by (nonlinear_arith)
    ensures
        crate::vec3::sdot(v, v) >= 0,
{
}

} // verus!
