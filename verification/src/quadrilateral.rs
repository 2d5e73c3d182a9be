//! Parallelogram patches: a corner and two edge vectors. The containment
//! test projects the crossing point onto the edges through the plane
//! normal; both planar coordinates must lie in `[0, 1)` of a unit (the
//! half-open convention is used for both).

use vstd::prelude::*;
use crate::fx::{div_floor, sqrt_floor, SCALE};
use crate::hittable::{HitRecord, hit_wf};
use crate::material::{Material, mat_wf};
use crate::ray::{Ray, ray_wf, ray_at, CB, DB, PB, T_MAX, T_EPS};
use crate::util::random_fx_unit;
use crate::vec3::{Vec3, bounded, sdot, scross, tdot, tcross, vtup};

verus! {

/// Edge vectors are kept to half the scene bound.
pub const QB: i64 = 0x200_0000;

pub struct Quadrilateral {
    pub starting_corner: Vec3,
    pub u: Vec3,
    pub v: Vec3,
    pub normal: Vec3,
    pub d: i64,
    pub area: i64,
    pub material: Material,
}

/// Well-formed patch: the normal is the normalized edge cross product, `d`
/// the plane offset of the corner, `area` the length of the edge cross
/// product (nonzero, so the patch is not degenerate).
pub open spec fn quad_wf(q: Quadrilateral) -> bool {
    &&& bounded(q.starting_corner, QB as int)
    &&& bounded(q.u, QB as int)
    &&& bounded(q.v, QB as int)
    &&& bounded(q.normal, SCALE as int)
    &&& sdot(q.normal, q.normal) > 0
    &&& vtup(q.normal) == crate::vec3::snorm3(tcross(vtup(q.u), vtup(q.v)))
    &&& q.d == tdot(vtup(q.normal), vtup(q.starting_corner))
    &&& -0x2000_0000_0000 <= q.d <= 0x2000_0000_0000
    &&& q.area == sqrt_floor(tdot(tcross(vtup(q.u), vtup(q.v)), tcross(vtup(q.u), vtup(q.v))))
    &&& 0 < q.area <= 0x200_0000_0000_0000
    &&& mat_wf(q.material)
}

/// The plane crossing parameter, or none when the ray is close to parallel
/// (the fixed-point cosine of the angle to the normal is under `T_EPS`).
pub open spec fn quad_t(q: Quadrilateral, r: Ray) -> Option<int> {
    let nd = sdot(q.normal, r.direction);
    let nn = q.d - sdot(q.normal, r.origin);
    if -T_EPS < nd < T_EPS {
        None
    } else if nd > 0 {
        Some(nn * (SCALE as int) / nd)
    } else {
        Some((-nn) * (SCALE as int) / (-nd))
    }
}

/// One planar coordinate of the crossing point, in fixed-point units: the
/// normal dotted with the cross product of offset and edge, over the area.
pub open spec fn quad_alpha(q: Quadrilateral, h: (int, int, int)) -> int {
    let off = (h.0 - q.starting_corner.x, h.1 - q.starting_corner.y, h.2 - q.starting_corner.z);
    tdot(vtup(q.normal), tcross(off, vtup(q.v))) / (q.area as int)
}

pub open spec fn quad_beta(q: Quadrilateral, h: (int, int, int)) -> int {
    let off = (h.0 - q.starting_corner.x, h.1 - q.starting_corner.y, h.2 - q.starting_corner.z);
    tdot(vtup(q.normal), tcross(vtup(q.u), off)) / (q.area as int)
}

/// The full intersection predicate: the crossing parameter if it lies in
/// `[t0, t1)` and both planar coordinates lie in `[0, 1)` of a unit.
pub open spec fn quad_hit(q: Quadrilateral, r: Ray, t0: int, t1: int) -> Option<int> {
    match quad_t(q, r) {
        None => None,
        Some(t) => {
            if !(t0 <= t < t1) {
                None
            } else {
                let h = ray_at(r, t);
                let alpha = quad_alpha(q, h);
                let beta = quad_beta(q, h);
                if 0 <= alpha < SCALE as int && 0 <= beta < SCALE as int {
                    Some(t)
                } else {
                    None
                }
            }
        },
    }
}

/// Shrinking the upper end of the interval keeps exactly the hits below it.
pub proof fn lemma_quad_hit_shrink(q: Quadrilateral, r: Ray, t0: int, c: int, t1: int)
    requires
        t0 <= c <= t1,
    ensures
        quad_hit(q, r, t0, c) == (match quad_hit(q, r, t0, t1) {
            Some(t) => if t < c {
                Some(t)
            } else {
                None::<int>
            },
            None => None::<int>,
        }),
{
}

/// The patch's sampling density, as a mathematical function: squared
/// distance to the hit times the direction's length, over the cosine times
/// the area, clamped into the fixed-point range.
pub open spec fn quad_pdf_density(q: Quadrilateral, o: Vec3, d: Vec3) -> int {
    let probe = Ray { origin: o, direction: d, time: 0i64 };
    match quad_hit(q, probe, T_EPS as int, T_MAX as int) {
        None => 0,
        Some(t) => {
            if t >= 0x4000_0000 {
                0
            } else {
                let dd = sdot(d, d);
                let ld = sqrt_floor(dd);
                let dn = sdot(d, q.normal);
                let adn = if dn < 0 { -dn } else { dn };
                if adn == 0 {
                    0
                } else {
                    let value = t * t * dd * ld / (adn * q.area);
                    if value > 0x8000_0000_0000 {
                        0x8000_0000_0000
                    } else {
                        value
                    }
                }
            }
        },
    }
}

impl Quadrilateral {
    /// Build a patch from a corner and two edges. The edges must not be
    /// parallel (their cross product must not round to zero).
    pub fn new(starting_corner: Vec3, u: Vec3, v: Vec3, material: Material) -> (r: Option<
        Quadrilateral,
    >)
        requires
            bounded(starting_corner, QB as int),
            bounded(u, QB as int),
            bounded(v, QB as int),
            mat_wf(material),
        ensures
            r matches Some(q) ==> {
                &&& q.starting_corner == starting_corner
                &&& q.u == u
                &&& q.v == v
                &&& q.material == material
                &&& quad_wf(q)
            },
            r is None <==> tdot(tcross(vtup(u), vtup(v)), tcross(vtup(u), vtup(v))) == 0,
    {
        let n: Vec3 = u.cross(v);
        proof {
            lemma_quad_cross_bound(u, v);
            lemma_sq3_nonneg(n);
        }
        proof {
            assert(sdot(n, n) <= 0x3_0000_0000_0000_0000_0000_0000_0000) by (nonlinear_arith)
                requires
                    bounded(n, 0x80_0000_0000_0000);
        }
        let nsq: i128 = n.dot_wide(n);
        if nsq == 0 {
            return None;
        }
        let normal: Vec3 = n.normalize();
        proof {
            crate::vec3::lemma_normalize_nonzero(n, normal);
        }
        let d: i64 = normal.dot(starting_corner);
        proof {
            assert(-0x2000_0000_0000 <= sdot(normal, starting_corner) <= 0x2000_0000_0000)
                by (nonlinear_arith)
                requires
                    bounded(normal, SCALE as int),
                    bounded(starting_corner, QB as int);
        }
        let au: u64 = crate::fx::isqrt(nsq as u128);
        proof {
            crate::fx::lemma_sqrt_floor_unique(nsq as int, au as int);
            lemma_area_small(nsq as int, au as int);
            assert(au as int >= 1) by {
                if au == 0 {
                    assert((au as int + 1) * (au as int + 1) == 1) by (nonlinear_arith)
                        requires
                            au as int == 0;
                }
            };
        }
        let area: i64 = au as i64;
        Some(Quadrilateral { starting_corner, u, v, normal, d, area, material })
    }

    /// Intersect a ray over `[t0, t1)`: exactly the parameter named by
    /// `quad_hit`, with the planar coordinates as the surface coordinates.
    pub fn hits<'a>(&'a self, ray: &Ray, t0: i64, t1: i64) -> (r: Option<HitRecord<'a>>)
        requires
            quad_wf(*self),
            ray_wf(*ray),
            0 <= t0 <= t1 <= T_MAX,
        ensures
            r is Some <==> quad_hit(*self, *ray, t0 as int, t1 as int) is Some,
            r matches Some(h) ==> {
                &&& Some(h.t as int) == quad_hit(*self, *ray, t0 as int, t1 as int)
                &&& t0 <= h.t < t1
                &&& vtup(h.hit_point) == ray_at(*ray, h.t as int)
                &&& h.u == quad_alpha(*self, vtup(h.hit_point))
                &&& h.v == quad_beta(*self, vtup(h.hit_point))
                &&& 0 <= h.u < SCALE
                &&& 0 <= h.v < SCALE
                &&& h.ray == *ray
                &&& h.material == self.material
                &&& hit_wf(h)
            },
    {
        let nd: i64 = self.normal.dot(ray.direction);
        if -T_EPS < nd && nd < T_EPS {
            return None;
        }
        let no: i64 = self.normal.dot(ray.origin);
        proof {
            assert(-0x2000_0000_0000 <= sdot(self.normal, ray.origin) <= 0x2000_0000_0000)
                by (nonlinear_arith)
                requires
                    bounded(self.normal, SCALE as int),
                    bounded(ray.origin, CB as int);
            assert(-0x2000_0000_0000 <= sdot(self.normal, ray.direction) <= 0x2000_0000_0000)
                by (nonlinear_arith)
                requires
                    bounded(self.normal, SCALE as int),
                    bounded(ray.direction, DB as int);
        }
        let nn: i64 = self.d - no;
        let (num, den): (i64, i64) = if nd > 0 {
            (nn, nd)
        } else {
            (-nn, -nd)
        };
        let tw: i128 = div_floor((num as i128) * (SCALE as i128), den as i128);
        if tw < t0 as i128 || tw >= t1 as i128 {
            return None;
        }
        let t: i64 = tw as i64;
        let hit_point: Vec3 = ray.at(t);
        let alpha: i128 = self.planar_coordinate(hit_point, false);
        let beta: i128 = self.planar_coordinate(hit_point, true);
        if !(0 <= alpha && alpha < SCALE as i128 && 0 <= beta && beta < SCALE as i128) {
            return None;
        }
        let mut hr: HitRecord<'a> = HitRecord::new(t, hit_point, ray, self.normal, &self.material);
        hr.set_uv((alpha as i64, beta as i64));
        Some(hr)
    }

    /// One planar coordinate of a point: `beta_axis` selects which edge the
    /// offset is crossed with.
    fn planar_coordinate(&self, hit_point: Vec3, beta_axis: bool) -> (r: i128)
        requires
            quad_wf(*self),
            bounded(hit_point, PB as int),
        ensures
            !beta_axis ==> r == quad_alpha(*self, vtup(hit_point)),
            beta_axis ==> r == quad_beta(*self, vtup(hit_point)),
    {
        let ox: i128 = (hit_point.x as i128) - (self.starting_corner.x as i128);
        let oy: i128 = (hit_point.y as i128) - (self.starting_corner.y as i128);
        let oz: i128 = (hit_point.z as i128) - (self.starting_corner.z as i128);
        let (ex, ey, ez): (i128, i128, i128) = if beta_axis {
            (self.u.x as i128, self.u.y as i128, self.u.z as i128)
        } else {
            (self.v.x as i128, self.v.y as i128, self.v.z as i128)
        };
        proof {
            lemma_planar_products_bound(
                ox as int, oy as int, oz as int, ex as int, ey as int, ez as int,
                self.normal.x as int, self.normal.y as int, self.normal.z as int,
            );
        }
        let (cx, cy, cz): (i128, i128, i128) = if beta_axis {
            (ey * oz - ez * oy, ez * ox - ex * oz, ex * oy - ey * ox)
        } else {
            (oy * ez - oz * ey, oz * ex - ox * ez, ox * ey - oy * ex)
        };
        let numer: i128 = (self.normal.x as i128) * cx + (self.normal.y as i128) * cy
            + (self.normal.z as i128) * cz;
        let q: i128 = floor_div_signed(numer, self.area as i128);
        q
    }

    /// The density, in solid angle, of drawing a direction from `origin`
    /// that hits the patch: squared distance over the cosine times the
    /// area, zero on a miss or on a degenerate configuration.
    pub fn pdf_value(&self, origin: &Vec3, direction: &Vec3) -> (r: i64)
        requires
            quad_wf(*self),
            bounded(*origin, CB as int),
            bounded(*direction, DB as int),
        ensures
            r == quad_pdf_density(*self, *origin, *direction),
            0 <= r <= 0x8000_0000_0000,
    {
        let probe: Ray = Ray::new(*origin, *direction);
        let hit: Option<HitRecord> = self.hits(&probe, T_EPS, T_MAX);
        let h: HitRecord = match hit {
            None => {
                return 0;
            },
            Some(h) => h,
        };
        if h.t >= 0x4000_0000 {
            // so distant that the density rounds to zero anyway
            return 0;
        }
        let dd: i64 = direction.dot(*direction);
        proof {
            assert(0 <= sdot(*direction, *direction) <= 0x100_0000_0000) by (nonlinear_arith)
                requires
                    bounded(*direction, DB as int);
        }
        let ld: u64 = crate::fx::isqrt(dd as u128);
        proof {
            crate::fx::lemma_sqrt_floor_unique(dd as int, ld as int);
            assert(ld as int <= 0x100_0000) by {
                if ld as int > 0x100_0000 {
                    assert((ld as int) * (ld as int) > 0x100_0000 * 0x100_0000)
                        by (nonlinear_arith)
                        requires
                            ld as int > 0x100_0000;
                }
            };
        }
        let dn: i64 = direction.dot(self.normal);
        proof {
            lemma_sq3_nonneg(*direction);
        }
        proof {
            assert(-0x2000_0000_0000 <= sdot(*direction, self.normal) <= 0x2000_0000_0000)
                by (nonlinear_arith)
                requires
                    bounded(self.normal, SCALE as int),
                    bounded(*direction, DB as int);
        }
        let adn: i64 = if dn < 0 {
            -dn
        } else {
            dn
        };
        if adn == 0 {
            return 0;
        }
        proof {
            lemma_pdf_num_bound(h.t as int, dd as int, ld as int);
            vstd::arithmetic::mul::lemma_mul_nonnegative(h.t as int, h.t as int);
            vstd::arithmetic::mul::lemma_mul_nonnegative((h.t as int) * (h.t as int), dd as int);
            vstd::arithmetic::mul::lemma_mul_nonnegative(
                (h.t as int) * (h.t as int) * (dd as int),
                ld as int,
            );
            vstd::arithmetic::mul::lemma_mul_strictly_positive(adn as int, self.area as int);
            assert(adn as int * self.area as int <= 0x2000_0000_0000 * 0x200_0000_0000_0000)
                by (nonlinear_arith)
                requires
                    0 <= adn as int <= 0x2000_0000_0000,
                    0 < self.area as int <= 0x200_0000_0000_0000;
        }
        let numer: i128 = (h.t as i128) * (h.t as i128) * (dd as i128) * (ld as i128);
        let denom: i128 = (adn as i128) * (self.area as i128);
        let value: i128 = div_floor(numer, denom);
        if value > 0x8000_0000_0000 {
            0x8000_0000_0000
        } else {
            value as i64
        }
    }

    /// A direction from `origin` toward a uniformly jittered point of the
    /// patch, normalized (a degenerate offset falls back to the vertical
    /// axis).
    pub fn random(&self, origin: &Vec3) -> (r: Vec3)
        requires
            quad_wf(*self),
            bounded(*origin, CB as int),
        ensures
            bounded(r, SCALE as int),
            exists|a: int, b: int| 0 <= a < SCALE && 0 <= b < SCALE && quad_random_rel(
                *self,
                *origin,
                a,
                b,
                r,
            ),
    {
        let ru: i64 = random_fx_unit();
        let rv: i64 = random_fx_unit();
        proof {
            lemma_edge_jitter_bound(self.u, ru as int);
            lemma_edge_jitter_bound(self.v, rv as int);
        }
        let pu: Vec3 = self.u.scale(ru);
        let pv: Vec3 = self.v.scale(rv);
        let target: Vec3 = self.starting_corner.add(pu).add(pv);
        let dir: Vec3 = target.sub(*origin);
        proof {
            lemma_sq3_nonneg(dir);
        }
        let d: i128 = dir.dot_wide(dir);
        let out: Vec3 = if d == 0 {
            proof {
                assert(dir.x == 0 && dir.y == 0 && dir.z == 0) by (nonlinear_arith)
                    requires
                        sdot(dir, dir) == 0;
            }
            Vec3 { x: 0, y: 0, z: SCALE }
        } else {
            dir.normalize()
        };
        proof {
            assert(quad_random_rel(*self, *origin, ru as int, rv as int, out));
        }
        out
    }
}

/// The sampled direction is the normalized offset from the origin to the
/// corner displaced by the drawn fractions of the two edges, with a
/// vertical fallback when that offset is zero.
pub open spec fn quad_random_rel(q: Quadrilateral, origin: Vec3, a: int, b: int, r: Vec3) -> bool {
    let t = (
        q.starting_corner.x + crate::fx::fxm(q.u.x as int, a) + crate::fx::fxm(q.v.x as int, b)
            - origin.x,
        q.starting_corner.y + crate::fx::fxm(q.u.y as int, a) + crate::fx::fxm(q.v.y as int, b)
            - origin.y,
        q.starting_corner.z + crate::fx::fxm(q.u.z as int, a) + crate::fx::fxm(q.v.z as int, b)
            - origin.z,
    );
    if t.0 == 0 && t.1 == 0 && t.2 == 0 {
        r == (Vec3 { x: 0i64, y: 0i64, z: SCALE })
    } else {
        vtup(r) == crate::vec3::snorm3(t)
    }
}

/// Floor division for a possibly negative numerator and positive divisor.
fn floor_div_signed(n: i128, d: i128) -> (q: i128)
    requires
        d > 0,
        -0x4000_0000_0000_0000_0000_0000_0000_0000 <= n,
    ensures
        q == n as int / d as int,
{
    div_floor(n, d)
}

proof fn lemma_sq3_nonneg(v: Vec3)
    by (nonlinear_arith)
    ensures
        sdot(v, v) >= 0,
{
}

/// The edge cross product of bounded edges stays inside the wide dot range.
proof fn lemma_quad_cross_bound(u: Vec3, v: Vec3)
    by (nonlinear_arith)
    requires
        bounded(u, QB as int),
        bounded(v, QB as int),
    ensures
        scross(u, v).0 <= 0x80_0000_0000_0000,
        scross(u, v).0 >= -0x80_0000_0000_0000,
        scross(u, v).1 <= 0x80_0000_0000_0000,
        scross(u, v).1 >= -0x80_0000_0000_0000,
        scross(u, v).2 <= 0x80_0000_0000_0000,
        scross(u, v).2 >= -0x80_0000_0000_0000,
{
}

/// The area root is bounded by the root of the cross product bound.
proof fn lemma_area_small(nsq: int, au: int)
    requires
        0 <= nsq <= 0x3_0000_0000_0000_0000_0000_0000_0000,
        au >= 0,
        au * au <= nsq,
        (au + 1) * (au + 1) > nsq,
    ensures
        au <= 0x200_0000_0000_0000,
{
    if au > 0x200_0000_0000_0000 {
        assert(au * au > 0x4_0000_0000_0000_0000_0000_0000_0000) by (nonlinear_arith)
            requires
                au > 0x200_0000_0000_0000;
    }
}

/// All products of a planar-coordinate numerator stay inside 128 bits.
proof fn lemma_planar_products_bound(
    ox: int, oy: int, oz: int, ex: int, ey: int, ez: int, nx: int, ny: int, nz: int,
)
    by (nonlinear_arith)
    requires
        -0x8000_0000_0000 <= ox <= 0x8000_0000_0000,
        -0x8000_0000_0000 <= oy <= 0x8000_0000_0000,
        -0x8000_0000_0000 <= oz <= 0x8000_0000_0000,
        -0x400_0000 <= ex <= 0x400_0000,
        -0x400_0000 <= ey <= 0x400_0000,
        -0x400_0000 <= ez <= 0x400_0000,
        -0x1_0000 <= nx <= 0x1_0000,
        -0x1_0000 <= ny <= 0x1_0000,
        -0x1_0000 <= nz <= 0x1_0000,
    ensures
        -0x400_0000_0000_0000_0000 <= oy * ez <= 0x400_0000_0000_0000_0000,
        -0x400_0000_0000_0000_0000 <= oz * ey <= 0x400_0000_0000_0000_0000,
        -0x400_0000_0000_0000_0000 <= oz * ex <= 0x400_0000_0000_0000_0000,
        -0x400_0000_0000_0000_0000 <= ox * ez <= 0x400_0000_0000_0000_0000,
        -0x400_0000_0000_0000_0000 <= ox * ey <= 0x400_0000_0000_0000_0000,
        -0x400_0000_0000_0000_0000 <= oy * ex <= 0x400_0000_0000_0000_0000,
        -0x400_0000_0000_0000_0000 <= ey * oz <= 0x400_0000_0000_0000_0000,
        -0x400_0000_0000_0000_0000 <= ez * oy <= 0x400_0000_0000_0000_0000,
        -0x400_0000_0000_0000_0000 <= ez * ox <= 0x400_0000_0000_0000_0000,
        -0x400_0000_0000_0000_0000 <= ex * oz <= 0x400_0000_0000_0000_0000,
        -0x400_0000_0000_0000_0000 <= ex * oy <= 0x400_0000_0000_0000_0000,
        -0x400_0000_0000_0000_0000 <= ey * ox <= 0x400_0000_0000_0000_0000,
        -0x8000_0000_0000_0000_0000_0000 <= nx * (oy * ez - oz * ey)
            <= 0x8000_0000_0000_0000_0000_0000,
        -0x8000_0000_0000_0000_0000_0000 <= ny * (oz * ex - ox * ez)
            <= 0x8000_0000_0000_0000_0000_0000,
        -0x8000_0000_0000_0000_0000_0000 <= nz * (ox * ey - oy * ex)
            <= 0x8000_0000_0000_0000_0000_0000,
        -0x8000_0000_0000_0000_0000_0000 <= nx * (ey * oz - ez * oy)
            <= 0x8000_0000_0000_0000_0000_0000,
        -0x8000_0000_0000_0000_0000_0000 <= ny * (ez * ox - ex * oz)
            <= 0x8000_0000_0000_0000_0000_0000,
        -0x8000_0000_0000_0000_0000_0000 <= nz * (ex * oy - ey * ox)
            <= 0x8000_0000_0000_0000_0000_0000,
{
}

/// The parts of the patch-density numerator stay small.
proof fn lemma_pdf_num_bound(t: int, dd: int, ld: int)
    by (nonlinear_arith)
    requires
        0 <= t < 0x4000_0000,
        0 <= dd <= 0x100_0000_0000,
        0 <= ld <= 0x100_0000,
    ensures
        t * t <= 0x1000_0000_0000_0000,
        t * t * dd <= 0x10_0000_0000_0000_0000_0000_0000,
        t * t * dd * ld <= 0x1000_0000_0000_0000_0000_0000_0000_0000,
{
}

/// An edge scaled by a unit-interval sample stays within the edge bound.
proof fn lemma_edge_jitter_bound(e: Vec3, k: int)
    requires
        bounded(e, QB as int),
        0 <= k < SCALE,
    ensures
        -(QB as int) * (SCALE as int) <= e.x * k <= (QB as int) * (SCALE as int),
        -(QB as int) * (SCALE as int) <= e.y * k <= (QB as int) * (SCALE as int),
        -(QB as int) * (SCALE as int) <= e.z * k <= (QB as int) * (SCALE as int),
        -QB <= e.x * k / (SCALE as int) <= QB,
        -QB <= e.y * k / (SCALE as int) <= QB,
        -QB <= e.z * k / (SCALE as int) <= QB,
{
    assert(-(QB as int) * (SCALE as int) <= e.x * k <= (QB as int) * (SCALE as int)
        && -(QB as int) * (SCALE as int) <= e.y * k <= (QB as int) * (SCALE as int)
        && -(QB as int) * (SCALE as int) <= e.z * k <= (QB as int) * (SCALE as int))
        by (nonlinear_arith)
        requires
            bounded(e, QB as int),
            0 <= k < SCALE;
    crate::fx::lemma_div_scale_bound(e.x * k, QB as int);
    crate::fx::lemma_div_scale_bound(e.y * k, QB as int);
    crate::fx::lemma_div_scale_bound(e.z * k, QB as int);
}

} // verus!
