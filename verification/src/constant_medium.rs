//! A participating medium: a boundary mesh filled with a uniform scattering
//! volume. A ray entering the boundary scatters after an exponentially
//! distributed distance; if that distance exceeds the span inside the
//! boundary, the ray passes through.

use vstd::prelude::*;
use crate::fx::{fx_mul, fx_div, SCALE};
use crate::hittable::{HitRecord, hit_wf};
use crate::material::{Material, mat_wf};
use crate::mesh::{Mesh, mesh_wf, fold_hit};
use crate::ray::{Ray, ray_wf, T_MAX, T_EPS};
use crate::texture::CMAX;
use crate::util::random_fx_unit;
use crate::vec3::{Vec3, bounded};

verus! {

/// `ln 2` in fixed-point steps.
pub const LN2_FX: i64 = 45426;

/// Halve until the value drops under two units or a budget of thirty-two
/// halvings runs out; the pair carries the final value and the tally.
pub open spec fn halvings(x: int, k: int) -> (int, int)
    decreases 32 - k,
{
    if x >= 2 * (SCALE as int) && k < 32 {
        halvings(x / 2, k + 1)
    } else {
        (x, k)
    }
}

/// `-ln(u / SCALE)` exactly as the library computes it: each whole halving
/// of `SCALE^2 / u` counts `ln 2`, a three-term alternating series covers
/// the remaining factor in `[1, 2)`, and the result saturates.
pub open spec fn sneg_ln_unit(u: int) -> int {
    let x0 = (SCALE as int * SCALE as int) / u;
    if x0 < SCALE {
        0
    } else {
        let xk = halvings(x0, 0);
        if xk.0 >= 2 * (SCALE as int) {
            0x20_0000
        } else {
            let frac = xk.0 - SCALE;
            let f2 = frac * frac / (SCALE as int);
            let f3 = f2 * frac / (SCALE as int);
            let series = frac - f2 / 2 + f3 / 3;
            let total = xk.1 * (LN2_FX as int) + if series > 0 {
                series
            } else {
                0
            };
            if total > 0x20_0000 {
                0x20_0000
            } else {
                total
            }
        }
    }
}

/// The span the ray spends inside the boundary, clamped to the queried
/// interval: the first boundary crossing anywhere along the ray and the
/// next one beyond it, or the ray origin when it starts inside; none when
/// the clamped span is empty.
pub open spec fn medium_span(m: ConstantMedium, r: Ray, t0: int, t1: int) -> Option<(int, int)> {
    match fold_hit(m.boundary.triangles@, r, 0, T_MAX as int) {
        None => None,
        Some(tf) => {
            let span0 = if tf < T_MAX - T_EPS {
                match fold_hit(m.boundary.triangles@, r, tf + T_EPS, T_MAX as int) {
                    Some(ts) => (tf, ts),
                    None => (0int, tf),
                }
            } else {
                (0int, tf)
            };
            let enter = if span0.0 < t0 {
                t0
            } else {
                span0.0
            };
            let exit = if span0.1 > t1 {
                t1
            } else {
                span0.1
            };
            if enter >= exit {
                None
            } else {
                Some((enter, exit))
            }
        },
    }
}

pub struct ConstantMedium {
    pub boundary: Mesh,
    pub phase_function: Material,
    pub inv_density: i64,
}

/// A smoke volume is a medium bounded by a mesh.
pub type SmokeCube = ConstantMedium;

pub open spec fn medium_wf(m: ConstantMedium) -> bool {
    &&& mesh_wf(m.boundary)
    &&& mat_wf(m.phase_function)
    &&& 0 < m.inv_density <= 0x1_0000_0000
}

impl ConstantMedium {
    /// Wrap a boundary mesh with a volume of the given density (fixed-point
    /// scatterings per unit) and scattering color.
    pub fn new(boundary: Mesh, density: i64, albedo: Vec3) -> (r: ConstantMedium)
        requires
            mesh_wf(boundary),
            0 < density <= 0x1_0000_0000,
            bounded(albedo, CMAX as int),
        ensures
            r.boundary == boundary,
            medium_wf(r),
            r.phase_function == crate::material::Material::Isotropic(
                crate::material::Isotropic {
                    albedo: crate::texture::Texture::SolidColor(
                        crate::texture::SolidColor { albedo },
                    ),
                },
            ),
    {
        proof {
            vstd::arithmetic::mul::lemma_mul_nonnegative(SCALE as int, SCALE as int);
            crate::fx::lemma_div_mag(SCALE as int * SCALE as int, density as int);
        }
        let inv: i64 = fx_div(SCALE, density);
        let inv_density: i64 = if inv < 1 {
            1
        } else {
            inv
        };
        ConstantMedium {
            boundary,
            phase_function: Material::isotropic_from_vec3(albedo),
            inv_density,
        }
    }

    /// Probabilistic intersection: find the span the ray spends inside the
    /// boundary, draw an exponential scattering distance, and report a hit
    /// when it falls inside that span. Whatever the draw, any returned
    /// record lies in the queried interval and scatters isotropically.
    pub fn hits(&self, ray: &Ray, t0: i64, t1: i64) -> (r: Option<HitRecord>)
        requires
            medium_wf(*self),
            ray_wf(*ray),
            0 <= t0 <= t1 <= T_MAX,
        ensures
            r matches Some(h) ==> {
                &&& t0 <= h.t < t1
                &&& h.material == self.phase_function
                &&& hit_wf(h)
            },
            (forall|k: int|
                0 <= k < self.boundary.triangles.len() ==> crate::triangle::tri_hit(
                    #[trigger] self.boundary.triangles[k],
                    *ray,
                    0,
                    crate::ray::T_MAX as int,
                ) is None) ==> r is None,
            medium_span(*self, *ray, t0 as int, t1 as int) is None ==> r is None,
            r matches Some(h) ==> (match medium_span(*self, *ray, t0 as int, t1 as int) {
                Some(span) => span.0 <= h.t < span.1 && exists|u: int|
                    1 <= u <= SCALE && h.t == span.0 + (self.inv_density as int
                        * #[trigger] sneg_ln_unit(u)) / (SCALE as int),
                None => false,
            }),
            r is None ==> (match medium_span(*self, *ray, t0 as int, t1 as int) {
                Some(span) => exists|u: int|
                    1 <= u <= SCALE && span.0 + (self.inv_density as int
                        * #[trigger] sneg_ln_unit(u)) / (SCALE as int) >= span.1,
                None => true,
            }),
    {
        let h1: Option<HitRecord> = self.boundary.hits(ray, 0, T_MAX);
        let t_first: i64 = match h1 {
            None => {
                return None;
            },
            Some(h) => h.t,
        };
        let h2: Option<HitRecord> = if t_first < T_MAX - T_EPS {
            self.boundary.hits(ray, t_first + T_EPS, T_MAX)
        } else {
            None
        };
        // with two boundary crossings the ray entered from outside; with
        // one it started inside, so the span begins at the ray origin
        let (enter0, exit0): (i64, i64) = match h2 {
            Some(h) => (t_first, h.t),
            None => (0, t_first),
        };
        let enter: i64 = if enter0 < t0 {
            t0
        } else {
            enter0
        };
        let exit: i64 = if exit0 > t1 {
            t1
        } else {
            exit0
        };
        proof {
            if enter < exit {
                assert(medium_span(*self, *ray, t0 as int, t1 as int) == Some((
                    enter as int,
                    exit as int,
                )));
            } else {
                assert(medium_span(*self, *ray, t0 as int, t1 as int) is None);
            }
        }
        if enter >= exit {
            return None;
        }
        let u: i64 = random_fx_unit();
        let neg_log: i64 = neg_ln_unit(u + 1);
        let hit_distance: i64 = fx_mul(self.inv_density, neg_log);
        proof {
            vstd::arithmetic::mul::lemma_mul_nonnegative(
                self.inv_density as int,
                neg_log as int,
            );
            vstd::arithmetic::div_mod::lemma_div_pos_is_pos(
                self.inv_density as int * neg_log as int,
                SCALE as int,
            );
            assert(1 <= u as int + 1 <= SCALE as int);
            assert(hit_distance == (self.inv_density as int * sneg_ln_unit(u as int + 1)) / (
            SCALE as int));
        }
        if hit_distance >= exit - enter {
            return None;
        }
        let t: i64 = enter + hit_distance;
        let hit_point: Vec3 = ray.at(t);
        // a volume has no meaningful surface orientation: the record gets a
        // placeholder normal and counts as front-facing
        let outward: Vec3 = Vec3 { x: SCALE, y: 0, z: 0 };
        proof {
            assert(crate::vec3::sdot(outward, outward) > 0) by (nonlinear_arith)
                requires
                    outward.x == SCALE && outward.y == 0 && outward.z == 0;
        }
        let hr: HitRecord = HitRecord {
            t,
            hit_point,
            normal: outward,
            ray: *ray,
            front_face: true,
            u: 0,
            v: 0,
            material: &self.phase_function,
        };
        Some(hr)
    }
}

/// `-ln(u / SCALE)` for `u` in `[1, SCALE]`, in fixed-point steps: the
/// whole doublings of `SCALE / u` count `ln 2` each, and the remaining
/// factor in `[1, 2)` is summed as a short alternating series.
fn neg_ln_unit(u: i64) -> (r: i64)
    requires
        1 <= u <= SCALE,
    ensures
        0 <= r <= 0x20_0000,
        r == sneg_ln_unit(u as int),
{
    proof {
        vstd::arithmetic::mul::lemma_mul_nonnegative(SCALE as int, SCALE as int);
        crate::fx::lemma_div_mag(SCALE as int * SCALE as int, u as int);
    }
    let mut x: i64 = fx_div(SCALE, u);
    if x < SCALE {
        return 0;
    }
    let mut k: u32 = 0;
    while x >= 2 * SCALE && k < 32
        invariant
            SCALE <= x,
            k <= 32,
            halvings((SCALE as int * SCALE as int) / (u as int), 0) == halvings(
                x as int,
                k as int,
            ),
        decreases 32 - k,
    {
        proof {
            assert(halvings(x as int, k as int) == halvings(x as int / 2, k as int + 1));
        }
        x = ((x as u64) / 2) as i64;
        k = k + 1;
    }
    proof {
        assert(halvings((SCALE as int * SCALE as int) / (u as int), 0) == (x as int, k as int));
    }
    if x >= 2 * SCALE {
        // the doubling budget ran out; saturate
        return 0x20_0000;
    }
    let frac: i64 = x - SCALE;
    proof {
        assert(0 <= (frac as int) * (frac as int) <= SCALE as int * (SCALE as int))
            by (nonlinear_arith)
            requires
                0 <= (frac as int) < SCALE as int;
        crate::fx::lemma_div_scale_bound(frac as int * frac as int, SCALE as int);
    }
    let f2: i64 = fx_mul(frac, frac);
    proof {
        assert(0 <= (f2 as int) * (frac as int) <= SCALE as int * (SCALE as int))
            by (nonlinear_arith)
            requires
                0 <= f2 as int <= SCALE as int,
                0 <= (frac as int) < SCALE as int;
        crate::fx::lemma_div_scale_bound(f2 as int * frac as int, SCALE as int);
    }
    let f3: i64 = fx_mul(f2, frac);
    let half2: i64 = ((f2 as u64) / 2) as i64;
    let third3: i64 = ((f3 as u64) / 3) as i64;
    let series: i64 = frac - half2 + third3;
    let whole: i64 = (k as i64) * LN2_FX;
    let total: i64 = whole + if series > 0 {
        series
    } else {
        0
    };
    if total > 0x20_0000 {
        0x20_0000
    } else {
        total
    }
}

} // verus!
