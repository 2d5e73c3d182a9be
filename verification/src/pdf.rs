//! Probability densities over directions, used for importance sampling.
//! A `PDF` can evaluate its density for a direction and draw a direction;
//! densities are fixed-point (the uniform sphere density `1/(4 pi)` is about
//! `5215` steps).

use vstd::prelude::*;
use crate::fx::{div_floor, fx_div, SCALE, PI_FX};
use crate::util::{rand_below, random_unit_vector, random_cosine_direction};
use crate::vec3::{Vec3, bounded, sdot, scross, snormalize};

verus! {

/// A right-handed basis built about a normal: `w` is the normalized normal,
/// `u` and `v` near-unit vectors orthogonal to it.
pub struct OrthonormalBasis {
    pub u: Vec3,
    pub v: Vec3,
    pub w: Vec3,
}

/// The helper axis the construction crosses the normal with: `y` when the
/// normal is nearly the `x` axis, else `x`.
pub open spec fn onb_helper_axis(w: Vec3) -> Vec3 {
    if w.x > 58982 || w.x < -58982 {
        Vec3 { x: 0i64, y: SCALE, z: 0i64 }
    } else {
        Vec3 { x: SCALE, y: 0i64, z: 0i64 }
    }
}

/// Component-wise division by the scale (cross products of unit-scale
/// vectors carry a factor `SCALE` too many).
pub open spec fn sshrink(p: (int, int, int)) -> (int, int, int) {
    (p.0 / (SCALE as int), p.1 / (SCALE as int), p.2 / (SCALE as int))
}

/// The basis is the one the construction yields for normal `n`.
pub open spec fn onb_wf(b: OrthonormalBasis, n: Vec3) -> bool {
    &&& (b.w.x as int, b.w.y as int, b.w.z as int) == snormalize(n)
    &&& bounded(b.w, SCALE as int)
    &&& bounded(b.u, 2 * SCALE as int)
    &&& bounded(b.v, SCALE as int)
    &&& {
        let cs = sshrink(crate::vec3::tcross(
            crate::vec3::vtup(b.w),
            crate::vec3::vtup(onb_helper_axis(b.w)),
        ));
        if cs.0 * cs.0 + cs.1 * cs.1 + cs.2 * cs.2 > 0 {
            (b.v.x as int, b.v.y as int, b.v.z as int) == crate::vec3::snorm3(cs)
        } else if b.w.x > 58982 || b.w.x < -58982 {
            b.v == (Vec3 { x: 0i64, y: 0i64, z: SCALE })
        } else {
            b.v == (Vec3 { x: 0i64, y: SCALE, z: 0i64 })
        }
    }
    &&& (b.u.x as int, b.u.y as int, b.u.z as int) == sshrink(scross(b.w, b.v))
}

impl OrthonormalBasis {
    /// Build the basis about `normal`.
    pub fn new(normal: &Vec3) -> (r: OrthonormalBasis)
        requires
            bounded(*normal, 0x4000_0000),
            sdot(*normal, *normal) > 0,
        ensures
            onb_wf(r, *normal),
    {
        let w: Vec3 = normal.normalize();
        let a: Vec3 = if w.x > 58982 || w.x < -58982 {
            Vec3 { x: 0, y: SCALE, z: 0 }
        } else {
            Vec3 { x: SCALE, y: 0, z: 0 }
        };
        let cr: Vec3 = w.cross(a);
        proof {
            lemma_cross_unit_bound(w, a);
            shrink_bound(cr, 2 * SCALE as int);
        }
        let cs: Vec3 = shrink(cr);
        let v: Vec3 = if cs.length_squared() > 0 {
            cs.normalize()
        } else {
            // the normal was so close to the helper axis that the cross
            // product rounded to zero; fall back to a fixed perpendicular
            if w.x > 58982 || w.x < -58982 {
                Vec3 { x: 0, y: 0, z: SCALE }
            } else {
                Vec3 { x: 0, y: SCALE, z: 0 }
            }
        };
        let wv: Vec3 = w.cross(v);
        proof {
            lemma_cross_unit_bound(w, v);
            shrink_bound(wv, 2 * SCALE as int);
        }
        let u: Vec3 = shrink(wv);
        OrthonormalBasis { u, v, w }
    }

    /// Combine a coefficient vector with the basis axes:
    /// `c.x * u + c.y * v + c.z * w`, each product scaled down once.
    pub fn transform(&self, c: &Vec3) -> (r: Vec3)
        requires
            bounded(*c, SCALE as int),
            bounded(self.u, 2 * SCALE as int),
            bounded(self.v, 2 * SCALE as int),
            bounded(self.w, 2 * SCALE as int),
        ensures
            r.x == crate::fx::fxm(c.x as int, self.u.x as int)
                + crate::fx::fxm(c.y as int, self.v.x as int)
                + crate::fx::fxm(c.z as int, self.w.x as int),
            r.y == crate::fx::fxm(c.x as int, self.u.y as int)
                + crate::fx::fxm(c.y as int, self.v.y as int)
                + crate::fx::fxm(c.z as int, self.w.y as int),
            r.z == crate::fx::fxm(c.x as int, self.u.z as int)
                + crate::fx::fxm(c.y as int, self.v.z as int)
                + crate::fx::fxm(c.z as int, self.w.z as int),
            bounded(r, 6 * SCALE as int + 3),
    {
        let a: Vec3 = self.u.scale(c.x);
        let b: Vec3 = self.v.scale(c.y);
        let d: Vec3 = self.w.scale(c.z);
        proof {
            lemma_scale_term_bound(c.x as int, self.u.x as int);
            lemma_scale_term_bound(c.x as int, self.u.y as int);
            lemma_scale_term_bound(c.x as int, self.u.z as int);
            lemma_scale_term_bound(c.y as int, self.v.x as int);
            lemma_scale_term_bound(c.y as int, self.v.y as int);
            lemma_scale_term_bound(c.y as int, self.v.z as int);
            lemma_scale_term_bound(c.z as int, self.w.x as int);
            lemma_scale_term_bound(c.z as int, self.w.y as int);
            lemma_scale_term_bound(c.z as int, self.w.z as int);
            assert(self.u.x as int * c.x as int == c.x as int * self.u.x as int) by (nonlinear_arith);
            assert(self.u.y as int * c.x as int == c.x as int * self.u.y as int) by (nonlinear_arith);
            assert(self.u.z as int * c.x as int == c.x as int * self.u.z as int) by (nonlinear_arith);
            assert(self.v.x as int * c.y as int == c.y as int * self.v.x as int) by (nonlinear_arith);
            assert(self.v.y as int * c.y as int == c.y as int * self.v.y as int) by (nonlinear_arith);
            assert(self.v.z as int * c.y as int == c.y as int * self.v.z as int) by (nonlinear_arith);
            assert(self.w.x as int * c.z as int == c.z as int * self.w.x as int) by (nonlinear_arith);
            assert(self.w.y as int * c.z as int == c.z as int * self.w.y as int) by (nonlinear_arith);
            assert(self.w.z as int * c.z as int == c.z as int * self.w.z as int) by (nonlinear_arith);
        }
        a.add(b).add(d)
    }
}

/// The cross product of two unit-scale vectors is bounded by
/// `2 * SCALE * SCALE` in every component.
proof fn lemma_cross_unit_bound(a: Vec3, b: Vec3)
    by (nonlinear_arith)
    requires
        bounded(a, SCALE as int),
        bounded(b, SCALE as int),
    ensures
        scross(a, b).0 <= 2 * (SCALE as int) * (SCALE as int),
        scross(a, b).0 >= -2 * (SCALE as int) * (SCALE as int),
        scross(a, b).1 <= 2 * (SCALE as int) * (SCALE as int),
        scross(a, b).1 >= -2 * (SCALE as int) * (SCALE as int),
        scross(a, b).2 <= 2 * (SCALE as int) * (SCALE as int),
        scross(a, b).2 >= -2 * (SCALE as int) * (SCALE as int),
{
}

/// If every component of `p` is within `b * SCALE`, every component of its
/// shrunk image is within `b`.
proof fn shrink_bound(p: Vec3, b: int)
    requires
        b >= 0,
        bounded(p, b * (SCALE as int)),
    ensures
        -b <= p.x as int / (SCALE as int) <= b,
        -b <= p.y as int / (SCALE as int) <= b,
        -b <= p.z as int / (SCALE as int) <= b,
{
    crate::fx::lemma_div_scale_bound(p.x as int, b);
    crate::fx::lemma_div_scale_bound(p.y as int, b);
    crate::fx::lemma_div_scale_bound(p.z as int, b);
}

/// `|fxm(c, a)| <= 2 * SCALE + 1` for a unit-scale coefficient and a
/// `2 * SCALE`-bounded axis component.
proof fn lemma_scale_term_bound(c: int, a: int)
    requires
        -SCALE <= c <= SCALE,
        -2 * (SCALE as int) <= a <= 2 * (SCALE as int),
    ensures
        -(2 * (SCALE as int) + 1) <= crate::fx::fxm(c, a) <= 2 * (SCALE as int) + 1,
{
    assert(-(2 * (SCALE as int) + 1) * (SCALE as int) <= c * a
        <= (2 * (SCALE as int) + 1) * (SCALE as int)) by (nonlinear_arith)
        requires
            -SCALE <= c <= SCALE,
            -2 * (SCALE as int) <= a <= 2 * (SCALE as int);
    crate::fx::lemma_div_scale_bound(c * a, 2 * (SCALE as int) + 1);
}

/// Component-wise division by the scale.
fn shrink(p: Vec3) -> (r: Vec3)
    requires
        bounded(p, 0x4000_0000_0000_0000),
    ensures
        (r.x as int, r.y as int, r.z as int)
            == sshrink((p.x as int, p.y as int, p.z as int)),
{
    let x: i64 = div_floor(p.x as i128, SCALE as i128) as i64;
    let y: i64 = div_floor(p.y as i128, SCALE as i128) as i64;
    let z: i64 = div_floor(p.z as i128, SCALE as i128) as i64;
    proof {
        crate::fx::lemma_div_mag(p.x as int, SCALE as int);
        crate::fx::lemma_div_mag(p.y as int, SCALE as int);
        crate::fx::lemma_div_mag(p.z as int, SCALE as int);
    }
    Vec3 { x, y, z }
}

/// The cosine density about `w`, in fixed-point steps:
/// `max(0, cos theta) / pi` where `cos theta` is the fixed-point cosine of
/// the angle between `dir` and `w`.
pub open spec fn cosine_density(w: Vec3, dir: Vec3) -> int {
    let c = sdot(dir, w) / (SCALE as int);
    if c <= 0 {
        0
    } else {
        c * (SCALE as int) / (PI_FX as int)
    }
}

/// The uniform density over the whole sphere of directions:
/// `1 / (4 pi)` in fixed-point steps.
pub open spec fn sphere_density() -> int {
    (SCALE as int) * (SCALE as int) / (4 * PI_FX as int)
}

/// Cosine-weighted density about a basis.
pub struct Cosine {
    pub onb: OrthonormalBasis,
}

/// Uniform density over the sphere of directions.
pub struct SpherePdf {
}

/// An even blend of two densities.
pub struct Mixture<'a> {
    pub pdf1: Box<PDF<'a>>,
    pub pdf2: Box<PDF<'a>>,
}

/// Light sampling toward a borrowed shape.
pub struct HittablePDF<'a> {
    pub shape: &'a crate::shape::Shape,
    pub origin: Vec3,
}

pub enum PDF<'a> {
    Cosine(Cosine),
    Sphere(SpherePdf),
    Hittable(HittablePDF<'a>),
    Mixture(Mixture<'a>),
}

/// The drawn direction is the basis combination of a cosine-weighted draw
/// about the pole: a unit-bounded coefficient vector with a non-negative
/// `z` component, each coefficient scaling one basis axis.
pub open spec fn cosine_sample_rel(b: OrthonormalBasis, d: Vec3, r: Vec3) -> bool {
    &&& bounded(d, SCALE as int)
    &&& d.z >= 0
    &&& r.x == crate::fx::fxm(d.x as int, b.u.x as int) + crate::fx::fxm(d.y as int, b.v.x as int)
        + crate::fx::fxm(d.z as int, b.w.x as int)
    &&& r.y == crate::fx::fxm(d.x as int, b.u.y as int) + crate::fx::fxm(d.y as int, b.v.y as int)
        + crate::fx::fxm(d.z as int, b.w.y as int)
    &&& r.z == crate::fx::fxm(d.x as int, b.u.z as int) + crate::fx::fxm(d.y as int, b.v.z as int)
        + crate::fx::fxm(d.z as int, b.w.z as int)
}

/// The drawn direction stands in the variant's own sampling relation; a
/// mixture draws from one of its two parts.
pub open spec fn pdf_sample_rel(p: PDF, r: Vec3) -> bool
    decreases p,
{
    match p {
        PDF::Cosine(c) => exists|d: Vec3| #[trigger] cosine_sample_rel(c.onb, d, r),
        PDF::Sphere(_) => bounded(r, SCALE as int) && crate::util::unit_sample_rel(r),
        PDF::Hittable(h) => crate::shape::shape_sample_rel(*h.shape, h.origin, r),
        PDF::Mixture(m) => pdf_sample_rel(*m.pdf1, r) || pdf_sample_rel(*m.pdf2, r),
    }
}

/// Every basis vector and coefficient in range.
pub open spec fn pdf_wf(p: PDF) -> bool
    decreases p,
{
    match p {
        PDF::Cosine(c) => bounded(c.onb.w, SCALE as int) && bounded(c.onb.u, 2 * SCALE as int)
            && bounded(c.onb.v, SCALE as int),
        PDF::Sphere(_) => true,
        PDF::Hittable(h) => crate::shape::shape_wf(*h.shape) && bounded(
            h.origin,
            crate::ray::CB as int,
        ),
        PDF::Mixture(m) => pdf_wf(*m.pdf1) && pdf_wf(*m.pdf2),
    }
}

/// The density a `PDF` assigns to a direction, as a mathematical function.
/// A mixture blends its two parts with equal weight.
pub open spec fn pdf_density(p: PDF, dir: Vec3) -> int
    decreases p,
{
    match p {
        PDF::Cosine(c) => cosine_density(c.onb.w, dir),
        PDF::Sphere(_) => sphere_density(),
        PDF::Hittable(h) => crate::shape::shape_density(*h.shape, h.origin, dir),
        PDF::Mixture(m) => (pdf_density(*m.pdf1, dir) + pdf_density(*m.pdf2, dir)) / 2,
    }
}

impl Cosine {
    pub fn new(v: &Vec3) -> (r: Cosine)
        requires
            bounded(*v, 0x4000_0000),
            sdot(*v, *v) > 0,
        ensures
            onb_wf(r.onb, *v),
    {
        Cosine { onb: OrthonormalBasis::new(v) }
    }
}

impl<'a> Mixture<'a> {
    pub fn new(pdf1: PDF<'a>, pdf2: PDF<'a>) -> (r: Mixture<'a>)
        ensures
            *r.pdf1 == pdf1,
            *r.pdf2 == pdf2,
    {
        Mixture { pdf1: Box::new(pdf1), pdf2: Box::new(pdf2) }
    }
}

impl<'a> HittablePDF<'a> {
    pub fn new(shape: &'a crate::shape::Shape, origin: &Vec3) -> (r: HittablePDF<'a>)
        ensures
            r.shape == shape,
            r.origin == *origin,
    {
        HittablePDF { shape, origin: *origin }
    }
}

impl<'a> PDF<'a> {
    pub fn cosine(v: &Vec3) -> (r: PDF<'a>)
        requires
            bounded(*v, 0x4000_0000),
            sdot(*v, *v) > 0,
        ensures
            r matches PDF::Cosine(c) && onb_wf(c.onb, *v),
            pdf_wf(r),
    {
        PDF::Cosine(Cosine::new(v))
    }

    pub fn sphere() -> (r: PDF<'a>)
        ensures
            r matches PDF::Sphere(_),
            pdf_wf(r),
    {
        PDF::Sphere(SpherePdf {})
    }

    pub fn hittable(shape: &'a crate::shape::Shape, origin: &Vec3) -> (r: PDF<'a>)
        requires
            crate::shape::shape_wf(*shape),
            bounded(*origin, crate::ray::CB as int),
        ensures
            r matches PDF::Hittable(h) && h.shape == shape && h.origin == *origin,
            pdf_wf(r),
    {
        PDF::Hittable(HittablePDF { shape, origin: *origin })
    }

    pub fn mixture(pdf1: PDF<'a>, pdf2: PDF<'a>) -> (r: PDF<'a>)
        requires
            pdf_wf(pdf1),
            pdf_wf(pdf2),
        ensures
            r matches PDF::Mixture(m) && *m.pdf1 == pdf1 && *m.pdf2 == pdf2,
            pdf_wf(r),
            forall|dir: Vec3| #[trigger] pdf_density(r, dir)
                == (pdf_density(pdf1, dir) + pdf_density(pdf2, dir)) / 2,
    {
        PDF::Mixture(Mixture::new(pdf1, pdf2))
    }

    /// Evaluate the density for a direction.
    pub fn value(&self, direction: &Vec3) -> (r: i64)
        requires
            pdf_wf(*self),
            bounded(*direction, crate::ray::DB as int),
        ensures
            r == pdf_density(*self, *direction),
            0 <= r <= 0x8000_0000_0000,
        decreases *self,
    {
        match self {
            PDF::Cosine(c) => cosine_value(&c.onb.w, direction),
            PDF::Sphere(_) => sphere_value(),
            PDF::Hittable(h) => h.shape.pdf_value(&h.origin, direction),
            PDF::Mixture(m) => {
                let v1: i64 = m.pdf1.value(direction);
                let v2: i64 = m.pdf2.value(direction);
                proof {
                    vstd::arithmetic::div_mod::lemma_div_pos_is_pos(
                        v1 as int + v2 as int,
                        2,
                    );
                }
                let h: i64 = half_nonneg(v1, v2);
                h
            },
        }
    }

    /// Draw a direction. For a mixture, a fair coin picks the part to draw
    /// from.
    pub fn generate(&self) -> (r: Vec3)
        requires
            pdf_wf(*self),
        ensures
            bounded(r, 8 * SCALE as int),
            pdf_sample_rel(*self, r),
        decreases *self,
    {
        match self {
            PDF::Cosine(c) => {
                let d: Vec3 = random_cosine_direction();
                let r: Vec3 = c.onb.transform(&d);
                proof {
                    assert(cosine_sample_rel(c.onb, d, r));
                }
                r
            },
            PDF::Sphere(_) => random_unit_vector(),
            PDF::Hittable(h) => h.shape.random(&h.origin),
            PDF::Mixture(m) => {
                if rand_below(2) == 0 {
                    m.pdf1.generate()
                } else {
                    m.pdf2.generate()
                }
            },
        }
    }
}

/// `(a + b) / 2` for non-negative summands.
fn half_nonneg(a: i64, b: i64) -> (r: i64)
    requires
        0 <= a,
        0 <= b,
    ensures
        r == (a + b) / 2,
{
    proof {
        crate::fx::lemma_div_mag(a as int + b as int, 2);
    }
    let s: u64 = (a as u64) + (b as u64);
    let h: u64 = s / 2;
    h as i64
}

/// The cosine density about `w`, computed exactly.
fn cosine_value(w: &Vec3, direction: &Vec3) -> (r: i64)
    requires
        bounded(*w, SCALE as int),
        bounded(*direction, 0x10_0000),
    ensures
        r == cosine_density(*w, *direction),
        0 <= r <= 0x8000_0000_0000,
{
    let d: i64 = direction.dot(*w);
    let c: i64 = div_floor(d as i128, SCALE as i128) as i64;
    proof {
        assert(-0x30_0000 * (SCALE as int) <= sdot(*direction, *w)
            <= 0x30_0000 * (SCALE as int)) by (nonlinear_arith)
            requires
                bounded(*w, SCALE as int),
                bounded(*direction, 0x10_0000);
        crate::fx::lemma_div_mag(d as int, SCALE as int);
        crate::fx::lemma_div_scale_bound(d as int, 0x30_0000);
    }
    if c <= 0 {
        0
    } else {
        proof {
            assert(c as int * SCALE as int <= 0x30_0000 * (SCALE as int)) by (nonlinear_arith)
                requires
                    0 < c as int <= 0x30_0000;
            vstd::arithmetic::mul::lemma_mul_nonnegative(c as int, SCALE as int);
            crate::fx::lemma_div_mag(c as int * SCALE as int, PI_FX as int);
            vstd::arithmetic::div_mod::lemma_div_pos_is_pos(c as int * SCALE as int, PI_FX as int);
            crate::fx::lemma_div_scale_bound(c as int * SCALE as int, 0x30_0000);
            vstd::arithmetic::div_mod::lemma_div_is_ordered_by_denominator(
                c as int * SCALE as int,
                SCALE as int,
                PI_FX as int,
            );
        }
        fx_div(c, PI_FX)
    }
}

/// The uniform sphere density, computed exactly.
fn sphere_value() -> (r: i64)
    ensures
        r == sphere_density(),
        0 <= r <= 0x8000_0000_0000,
{
    proof {
        vstd::arithmetic::div_mod::lemma_div_pos_is_pos(
            SCALE as int * SCALE as int,
            4 * PI_FX as int,
        );
        crate::fx::lemma_div_mag(SCALE as int * SCALE as int, 4 * PI_FX as int);
    }
    fx_div(SCALE, 4 * PI_FX)
}

} // verus!
