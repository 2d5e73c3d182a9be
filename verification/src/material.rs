//! Materials: how a ray scatters or is emitted at a hit, and the scattering
//! density used to weight importance-sampled bounces.

use vstd::prelude::*;
use crate::fx::{div_floor, fx_mul, fx_div, fx_sqrt, fxm, sqrt_floor, SCALE, PI_FX};
use crate::hittable::{HitRecord, hit_wf};
use crate::pdf::{PDF, onb_wf, cosine_density, sphere_density, pdf_wf};
use crate::ray::Ray;
use crate::texture::{Texture, tex_wf, tex_color, CMAX};
use crate::util::{random_unit_vector, random_fx_unit};
use crate::vec3::{Vec3, bounded, sdot, snorm3, tdot, vtup};

verus! {

#[derive(Debug)]
pub struct Lambertian {
    pub albedo: Texture,
}

#[derive(Debug)]
pub struct Metal {
    pub albedo: Texture,
    pub fuzz: i64,
}

#[derive(Debug)]
pub struct Dielectric {
    pub refraction_index: i64,
}

#[derive(Debug)]
pub struct Isotropic {
    pub albedo: Texture,
}

#[derive(Debug)]
pub struct DiffuseLight {
    pub emission: Texture,
}

#[derive(Debug)]
pub enum Material {
    Metal(Metal),
    Isotropic(Isotropic),
    Lambertian(Lambertian),
    Dielectric(Dielectric),
    DiffuseLight(DiffuseLight),
}

/// Well-formed material data: textures well-formed, scalar parameters in
/// their physical ranges.
pub open spec fn mat_wf(m: Material) -> bool {
    match m {
        Material::Metal(mt) => tex_wf(mt.albedo) && -SCALE <= mt.fuzz <= SCALE,
        Material::Isotropic(i) => tex_wf(i.albedo),
        Material::Lambertian(l) => tex_wf(l.albedo),
        Material::Dielectric(d) => SCALE / 4 <= d.refraction_index <= 4 * SCALE,
        Material::DiffuseLight(dl) => tex_wf(dl.emission),
    }
}

/// What a scattering material hands back: the color filter it applies, the
/// outgoing ray, and the density the direction was meant to be drawn from
/// (none for the specular materials).
pub struct Scattered<'a> {
    pub attenuation: Vec3,
    pub scattered: Ray,
    pub pdf: Option<PDF<'a>>,
}

/// The specular reflection of `d` about `n` (both fixed-point):
/// `d - 2 (d . n) n / SCALE^2`, each division rounded toward minus infinity.
pub open spec fn sreflect(d: Vec3, n: Vec3) -> (int, int, int) {
    let dn = sdot(d, n);
    (
        d.x - 2 * dn * n.x / ((SCALE as int) * (SCALE as int)),
        d.y - 2 * dn * n.y / ((SCALE as int) * (SCALE as int)),
        d.z - 2 * dn * n.z / ((SCALE as int) * (SCALE as int)),
    )
}

/// The incoming cosine the dielectric works with: `-(d . n) / SCALE`,
/// capped at one unit.
pub open spec fn sdielectric_cos(d: Vec3, n: Vec3) -> int {
    let c = -sdot(d, n) / (SCALE as int);
    if c > SCALE as int {
        SCALE as int
    } else if c < -(SCALE as int) {
        -(SCALE as int)
    } else {
        c
    }
}

/// The refracted direction for incoming `d`, normal `n` and index ratio
/// `ratio`, before normalization (Snell construction, fixed-point).
pub open spec fn srefract(d: Vec3, n: Vec3, ratio: int) -> (int, int, int) {
    let cos = sdielectric_cos(d, n);
    let tx = d.x + fxm(cos, n.x as int);
    let ty = d.y + fxm(cos, n.y as int);
    let tz = d.z + fxm(cos, n.z as int);
    let px = fxm(ratio, tx);
    let py = fxm(ratio, ty);
    let pz = fxm(ratio, tz);
    let pl = (px * px + py * py + pz * pz) / (SCALE as int);
    let m = if pl >= SCALE as int {
        0
    } else {
        (SCALE as int) - pl
    };
    let par = sqrt_floor(m * (SCALE as int));
    (px - fxm(par, n.x as int), py - fxm(par, n.y as int), pz - fxm(par, n.z as int))
}

/// Schlick's reflectance approximation, fixed-point.
pub open spec fn sschlick(cos: int, ratio: int) -> int {
    let q0 = ((SCALE as int) - ratio) * (SCALE as int) / ((SCALE as int) + ratio);
    let q = if q0 > 4 * (SCALE as int) {
        4 * (SCALE as int)
    } else if q0 < -4 * (SCALE as int) {
        -4 * (SCALE as int)
    } else {
        q0
    };
    let r0 = fxm(q, q);
    let omc = (SCALE as int) - cos;
    let p2 = fxm(omc, omc);
    let p4 = fxm(p2, p2);
    let p5 = fxm(p4, omc);
    r0 + fxm((SCALE as int) - r0, p5)
}

impl Material {
    pub fn lambertian(albedo: Texture) -> (r: Material)
        requires
            tex_wf(albedo),
        ensures
            r == Material::Lambertian(Lambertian { albedo }),
            mat_wf(r),
    {
        Material::Lambertian(Lambertian { albedo })
    }

    pub fn lambertian_from_vec3(albedo: Vec3) -> (r: Material)
        requires
            bounded(albedo, CMAX as int),
        ensures
            r == Material::Lambertian(Lambertian {
                albedo: Texture::SolidColor(crate::texture::SolidColor { albedo }),
            }),
            mat_wf(r),
    {
        Material::Lambertian(Lambertian { albedo: Texture::solid_color(albedo) })
    }

    pub fn metal_from_vec3(albedo: Vec3, fuzz: i64) -> (r: Material)
        requires
            bounded(albedo, CMAX as int),
            fuzz >= -SCALE,
        ensures
            r matches Material::Metal(m)
                && m.albedo == Texture::SolidColor(crate::texture::SolidColor { albedo })
                && m.fuzz == if fuzz < SCALE { fuzz as int } else { SCALE as int },
            mat_wf(r),
    {
        Material::metal(Texture::solid_color(albedo), fuzz)
    }

    pub fn metal(albedo: Texture, fuzz: i64) -> (r: Material)
        requires
            tex_wf(albedo),
            fuzz >= -SCALE,
        ensures
            r matches Material::Metal(m)
                && m.albedo == albedo
                && m.fuzz == if fuzz < SCALE { fuzz as int } else { SCALE as int },
            mat_wf(r),
    {
        let f: i64 = if fuzz < SCALE {
            fuzz
        } else {
            SCALE
        };
        Material::Metal(Metal { albedo, fuzz: f })
    }

    pub fn dielectric(refraction_index: i64) -> (r: Material)
        requires
            SCALE / 4 <= refraction_index <= 4 * SCALE,
        ensures
            r == Material::Dielectric(Dielectric { refraction_index }),
            mat_wf(r),
    {
        Material::Dielectric(Dielectric { refraction_index })
    }

    pub fn diffuse_light(emission: Vec3) -> (r: Material)
        requires
            bounded(emission, CMAX as int),
        ensures
            r == Material::DiffuseLight(DiffuseLight {
                emission: Texture::SolidColor(crate::texture::SolidColor { albedo: emission }),
            }),
            mat_wf(r),
    {
        Material::DiffuseLight(DiffuseLight { emission: Texture::solid_color(emission) })
    }

    pub fn isotropic_from_vec3(albedo: Vec3) -> (r: Material)
        requires
            bounded(albedo, CMAX as int),
        ensures
            r == Material::Isotropic(Isotropic {
                albedo: Texture::SolidColor(crate::texture::SolidColor { albedo }),
            }),
            mat_wf(r),
    {
        Material::Isotropic(Isotropic { albedo: Texture::solid_color(albedo) })
    }

    pub fn isotropic(albedo: Texture) -> (r: Material)
        requires
            tex_wf(albedo),
        ensures
            r == Material::Isotropic(Isotropic { albedo }),
            mat_wf(r),
    {
        Material::Isotropic(Isotropic { albedo })
    }

    /// The radiance a material emits at a hit: only a diffuse light emits,
    /// and only on its front face.
    pub fn emitted(&self, hit_record: &HitRecord) -> (r: Vec3)
        requires
            hit_wf(*hit_record),
            mat_wf(*self),
        ensures
            r == emitted_radiance(*self, *hit_record),
            bounded(r, CMAX as int),
    {
        match self {
            Material::DiffuseLight(dl) => {
                if !hit_record.front_face {
                    Vec3::zero()
                } else {
                    dl.emission.get_color_value(hit_record.u, hit_record.v, hit_record.hit_point)
                }
            },
            _ => Vec3::zero(),
        }
    }

    /// The density with which the material's own sampling draws the
    /// direction of `scattered`: the cosine density for a diffuse surface,
    /// the uniform sphere density for a volume, zero for the rest.
    pub fn scattering_pdf(&self, _ray: &Ray, hit_record: &HitRecord, scattered: &Ray) -> (r: i64)
        requires
            hit_wf(*hit_record),
            mat_wf(*self),
            bounded(scattered.direction, 0x10_0000),
        ensures
            r == scatter_density(*self, *hit_record, *scattered),
            0 <= r <= 0x30_0000,
    {
        match self {
            Material::Lambertian(_) => {
                let d: i64 = scattered.direction.dot(hit_record.normal);
                let c: i64 = div_floor(d as i128, SCALE as i128) as i64;
                proof {
                    assert(-0x30_0000 * (SCALE as int) <= sdot(scattered.direction, hit_record.normal)
                        <= 0x30_0000 * (SCALE as int)) by (nonlinear_arith)
                        requires
                            bounded(hit_record.normal, SCALE as int),
                            bounded(scattered.direction, 0x10_0000);
                    crate::fx::lemma_div_mag(d as int, SCALE as int);
                    crate::fx::lemma_div_scale_bound(d as int, 0x30_0000);
                }
                if c <= 0 {
                    0
                } else {
                    proof {
                        assert(c as int * SCALE as int <= 0x30_0000 * (SCALE as int))
                            by (nonlinear_arith)
                            requires
                                0 < c as int <= 0x30_0000;
                        vstd::arithmetic::mul::lemma_mul_nonnegative(c as int, SCALE as int);
                        crate::fx::lemma_div_mag(c as int * SCALE as int, PI_FX as int);
                        crate::fx::lemma_div_scale_bound(c as int * SCALE as int, 0x30_0000);
                        vstd::arithmetic::div_mod::lemma_div_is_ordered_by_denominator(
                            c as int * SCALE as int,
                            SCALE as int,
                            PI_FX as int,
                        );
                        assert(c as int * SCALE as int == SCALE as int * (c as int))
                            by (nonlinear_arith);
                        vstd::arithmetic::div_mod::lemma_div_multiples_vanish(
                            c as int,
                            SCALE as int,
                        );
                    }
                    fx_div(c, PI_FX)
                }
            },
            Material::Isotropic(_) => {
                proof {
                    vstd::arithmetic::div_mod::lemma_div_pos_is_pos(
                        SCALE as int * SCALE as int,
                        4 * PI_FX as int,
                    );
                }
                fx_div(SCALE, 4 * PI_FX)
            },
            _ => 0,
        }
    }
}

impl Material {
    /// How the material scatters an incoming ray at a hit. A diffuse
    /// surface always scatters about its normal with a cosine density; a
    /// volume scatters uniformly; a metal reflects (with its fuzz jitter)
    /// and absorbs rays that end up under the surface; a dielectric always
    /// hands back either the reflection or the refraction; a light never
    /// scatters. Every scattered ray starts at the hit point, keeps the hit
    /// ray's time stamp, and carries a near-unit direction.
    pub fn scatters<'a>(&self, hit_record: &HitRecord) -> (r: Option<Scattered<'a>>)
        requires
            hit_wf(*hit_record),
            mat_wf(*self),
        ensures
            r matches Some(s) ==> {
                &&& s.scattered.origin == hit_record.hit_point
                &&& s.scattered.time == hit_record.ray.time
                &&& bounded(s.scattered.direction, SCALE as int)
                &&& bounded(s.attenuation, CMAX as int)
                &&& (s.pdf matches Some(p) ==> pdf_wf(p))
            },
            *self matches Material::DiffuseLight(_) ==> r is None,
            *self matches Material::Lambertian(l) ==> r matches Some(s) && {
                &&& s.attenuation == tex_color(
                    l.albedo,
                    hit_record.u as int,
                    hit_record.v as int,
                    hit_record.hit_point,
                )
                &&& sdot(s.scattered.direction, s.scattered.direction) > 0
                &&& s.pdf matches Some(p) && p matches PDF::Cosine(c) && onb_wf(
                    c.onb,
                    hit_record.normal,
                )
            },
            *self matches Material::Isotropic(i) ==> r matches Some(s) && {
                &&& s.attenuation == tex_color(
                    i.albedo,
                    hit_record.u as int,
                    hit_record.v as int,
                    hit_record.hit_point,
                )
                &&& s.pdf matches Some(p) && p matches PDF::Sphere(_)
            },
            *self matches Material::Metal(mt) ==> {
                &&& (r matches Some(s) ==> {
                    &&& s.attenuation == tex_color(
                        mt.albedo,
                        hit_record.u as int,
                        hit_record.v as int,
                        hit_record.hit_point,
                    )
                    &&& s.pdf is None
                    &&& sdot(s.scattered.direction, hit_record.normal) > 0
                })
                &&& (mt.fuzz == 0 ==> (r matches Some(s) ==> crate::vec3::vtup(
                    s.scattered.direction,
                ) == snorm3(sreflect(hit_record.ray.direction, hit_record.normal))))
                &&& (mt.fuzz == 0 ==> {
                    let refl = sreflect(hit_record.ray.direction, hit_record.normal);
                    (!(refl.0 == 0 && refl.1 == 0 && refl.2 == 0) && tdot(
                        snorm3(refl),
                        vtup(hit_record.normal),
                    ) > 0) ==> r is Some
                })
            },
            *self matches Material::Dielectric(di) ==> r matches Some(s) && {
                &&& s.attenuation == (Vec3 { x: SCALE, y: SCALE, z: SCALE })
                &&& s.pdf is None
                &&& {
                    let d = hit_record.ray.direction;
                    let n = hit_record.normal;
                    let ratio = if hit_record.front_face {
                        (SCALE as int) * (SCALE as int) / (di.refraction_index as int)
                    } else {
                        di.refraction_index as int
                    };
                    ||| crate::vec3::vtup(s.scattered.direction) == snorm3(sreflect(d, n))
                    ||| crate::vec3::vtup(s.scattered.direction) == snorm3(srefract(d, n, ratio))
                    ||| s.scattered.direction == n
                }
            },
    {
        match self {
            Material::Lambertian(l) => {
                let unit: Vec3 = random_unit_vector();
                let sum: Vec3 = hit_record.normal.add(unit);
                let dir: Vec3 = if sum.length_squared() == 0 {
                    hit_record.normal
                } else {
                    let nd: Vec3 = sum.normalize();
                    proof {
                        crate::vec3::lemma_normalize_nonzero(sum, nd);
                    }
                    nd
                };
                let attenuation: Vec3 = l.albedo.get_color_value(
                    hit_record.u,
                    hit_record.v,
                    hit_record.hit_point,
                );
                Some(Scattered {
                    attenuation,
                    scattered: Ray::with_time(hit_record.hit_point, dir, hit_record.ray.time),
                    pdf: Some(PDF::cosine(&hit_record.normal)),
                })
            },
            Material::Isotropic(i) => {
                let attenuation: Vec3 = i.albedo.get_color_value(
                    hit_record.u,
                    hit_record.v,
                    hit_record.hit_point,
                );
                Some(Scattered {
                    attenuation,
                    scattered: Ray::with_time(
                        hit_record.hit_point,
                        random_unit_vector(),
                        hit_record.ray.time,
                    ),
                    pdf: Some(PDF::sphere()),
                })
            },
            Material::Metal(mt) => {
                let reflected: Vec3 = reflect_dir(hit_record.ray.direction, hit_record.normal);
                let unit: Vec3 = random_unit_vector();
                proof {
                    lemma_fuzz_scale_bound(unit, mt.fuzz as int);
                }
                let jitter: Vec3 = unit.scale(mt.fuzz);
                proof {
                    if mt.fuzz == 0 {
                        vstd::arithmetic::mul::lemma_mul_by_zero_is_zero(unit.x as int);
                        vstd::arithmetic::mul::lemma_mul_by_zero_is_zero(unit.y as int);
                        vstd::arithmetic::mul::lemma_mul_by_zero_is_zero(unit.z as int);
                        vstd::arithmetic::div_mod::lemma_div_basics(SCALE as int);
                    }
                }
                let fuzzed: Vec3 = reflected.add(jitter);
                if fuzzed.length_squared() == 0 {
                    proof {
                        assert(fuzzed.x == 0 && fuzzed.y == 0 && fuzzed.z == 0)
                            by (nonlinear_arith)
                            requires
                                sdot(fuzzed, fuzzed) == 0;
                    }
                    return None;
                }
                let dir: Vec3 = fuzzed.normalize();
                if dir.dot(hit_record.normal) <= 0 {
                    return None;
                }
                let attenuation: Vec3 = mt.albedo.get_color_value(
                    hit_record.u,
                    hit_record.v,
                    hit_record.hit_point,
                );
                Some(Scattered {
                    attenuation,
                    scattered: Ray::with_time(hit_record.hit_point, dir, hit_record.ray.time),
                    pdf: None,
                })
            },
            Material::Dielectric(di) => {
                let d: Vec3 = hit_record.ray.direction;
                let n: Vec3 = hit_record.normal;
                let ratio: i64 = if hit_record.front_face {
                    proof {
                        vstd::arithmetic::mul::lemma_mul_nonnegative(SCALE as int, SCALE as int);
                        crate::fx::lemma_div_mag(
                            SCALE as int * SCALE as int,
                            di.refraction_index as int,
                        );
                        vstd::arithmetic::div_mod::lemma_div_is_ordered_by_denominator(
                            SCALE as int * SCALE as int,
                            16384,
                            di.refraction_index as int,
                        );
                        vstd::arithmetic::div_mod::lemma_div_is_ordered_by_denominator(
                            SCALE as int * SCALE as int,
                            di.refraction_index as int,
                            4 * SCALE as int,
                        );
                        assert(SCALE as int * SCALE as int / 16384 == 4 * SCALE as int)
                            by (nonlinear_arith);
                        assert(SCALE as int * SCALE as int / (4 * SCALE as int) == 16384)
                            by (nonlinear_arith);
                    }
                    fx_div(SCALE, di.refraction_index)
                } else {
                    di.refraction_index
                };
                let dn: i64 = d.dot(n);
                proof {
                    assert(-0x18_0000_0000 <= sdot(d, n) <= 0x18_0000_0000)
                        by (nonlinear_arith)
                        requires
                            bounded(d, crate::ray::DB as int),
                            bounded(n, SCALE as int);
                    crate::fx::lemma_div_scale_bound((-dn) as int, 0x30_0000);
                }
                let c0: i64 = div_floor((-dn) as i128, SCALE as i128) as i64;
                let cos: i64 = if c0 > SCALE {
                    SCALE
                } else if c0 < -SCALE {
                    -SCALE
                } else {
                    c0
                };
                proof {
                    lemma_fxm_sq_bound(cos as int);
                }
                let m0: i64 = fx_mul(cos, cos);
                let sin2: i64 = if m0 > SCALE {
                    0
                } else {
                    SCALE - m0
                };
                let sin_theta: i64 = fx_sqrt(sin2);
                let cannot_refract: bool = fx_mul(ratio, sin_theta) > SCALE;
                let refl: i64 = schlick(cos, ratio);
                let coin: i64 = random_fx_unit();
                let raw: Vec3 = if cannot_refract || refl > coin {
                    reflect_dir(d, n)
                } else {
                    refract_dir(d, n, ratio)
                };
                let dir: Vec3 = if raw.length_squared() == 0 {
                    n
                } else {
                    raw.normalize()
                };
                Some(Scattered {
                    attenuation: Vec3::one(),
                    scattered: Ray::with_time(hit_record.hit_point, dir, hit_record.ray.time),
                    pdf: None,
                })
            },
            Material::DiffuseLight(_) => None,
        }
    }
}

/// The specular reflection, computed exactly.
fn reflect_dir(d: Vec3, n: Vec3) -> (r: Vec3)
    requires
        bounded(d, crate::ray::DB as int),
        bounded(n, SCALE as int),
    ensures
        crate::vec3::vtup(r) == sreflect(d, n),
        bounded(r, 0x80_0000),
{
    let dn: i64 = d.dot(n);
    proof {
        assert(-0x18_0000_0000 <= sdot(d, n) <= 0x18_0000_0000) by (nonlinear_arith)
            requires
                bounded(d, crate::ray::DB as int),
                bounded(n, SCALE as int);
    }
    let x: i64 = reflect_component(d.x, dn, n.x);
    let y: i64 = reflect_component(d.y, dn, n.y);
    let z: i64 = reflect_component(d.z, dn, n.z);
    Vec3 { x, y, z }
}

/// `dc - 2 dn nc / SCALE^2` for one coordinate.
fn reflect_component(dc: i64, dn: i64, nc: i64) -> (r: i64)
    requires
        -0x8_0000 <= dc <= 0x8_0000,
        -0x18_0000_0000 <= dn <= 0x18_0000_0000,
        -SCALE <= nc <= SCALE,
    ensures
        r == dc - 2 * (dn as int) * (nc as int) / ((SCALE as int) * (SCALE as int)),
        -0x80_0000 <= r <= 0x80_0000,
{
    proof {
        lemma_reflect_quotient_bound(dn as int, nc as int);
    }
    let p: i128 = 2 * (dn as i128) * (nc as i128);
    let q: i128 = div_floor(p, (SCALE as i128) * (SCALE as i128));
    dc - (q as i64)
}

/// The reflection correction term stays within a few units.
proof fn lemma_reflect_quotient_bound(dn: int, nc: int)
    requires
        -0x18_0000_0000 <= dn <= 0x18_0000_0000,
        -SCALE <= nc <= SCALE,
    ensures
        -0x60_0000 * ((SCALE as int) * (SCALE as int)) <= 2 * dn * nc
            <= 0x60_0000 * ((SCALE as int) * (SCALE as int)),
        -0x60_0000 <= 2 * dn * nc / ((SCALE as int) * (SCALE as int)) <= 0x60_0000,
{
    assert(-0x60_0000 * ((SCALE as int) * (SCALE as int)) <= 2 * dn * nc
        <= 0x60_0000 * ((SCALE as int) * (SCALE as int))) by (nonlinear_arith)
        requires
            -0x18_0000_0000 <= dn <= 0x18_0000_0000,
            -SCALE <= nc <= SCALE;
    vstd::arithmetic::div_mod::lemma_div_is_ordered(
        2 * dn * nc,
        0x60_0000 * ((SCALE as int) * (SCALE as int)),
        (SCALE as int) * (SCALE as int),
    );
    vstd::arithmetic::div_mod::lemma_div_is_ordered(
        -0x60_0000 * ((SCALE as int) * (SCALE as int)),
        2 * dn * nc,
        (SCALE as int) * (SCALE as int),
    );
    assert(0x60_0000 * ((SCALE as int) * (SCALE as int)) == ((SCALE as int) * (SCALE as int))
        * 0x60_0000) by (nonlinear_arith);
    assert(-0x60_0000 * ((SCALE as int) * (SCALE as int)) == ((SCALE as int) * (SCALE as int))
        * (-0x60_0000)) by (nonlinear_arith);
    vstd::arithmetic::div_mod::lemma_div_multiples_vanish(
        0x60_0000,
        (SCALE as int) * (SCALE as int),
    );
    vstd::arithmetic::div_mod::lemma_div_multiples_vanish(
        -0x60_0000,
        (SCALE as int) * (SCALE as int),
    );
}

/// The Snell construction, computed exactly.
fn refract_dir(d: Vec3, n: Vec3, ratio: i64) -> (r: Vec3)
    requires
        bounded(d, crate::ray::DB as int),
        bounded(n, SCALE as int),
        0 < ratio <= 4 * SCALE,
    ensures
        crate::vec3::vtup(r) == srefract(d, n, ratio as int),
        bounded(r, 0x100_0000),
{
    let dn: i64 = d.dot(n);
    proof {
        assert(-0x18_0000_0000 <= sdot(d, n) <= 0x18_0000_0000) by (nonlinear_arith)
            requires
                bounded(d, crate::ray::DB as int),
                bounded(n, SCALE as int);
        crate::fx::lemma_div_scale_bound((-dn) as int, 0x30_0000);
    }
    let c0: i64 = div_floor((-dn) as i128, SCALE as i128) as i64;
    let cos: i64 = if c0 > SCALE {
        SCALE
    } else if c0 < -SCALE {
        -SCALE
    } else {
        c0
    };
    proof {
        lemma_refract_term_bounds(cos as int, n.x as int, n.y as int, n.z as int, ratio as int);
    }
    let tx: i64 = d.x + fx_mul(cos, n.x);
    let ty: i64 = d.y + fx_mul(cos, n.y);
    let tz: i64 = d.z + fx_mul(cos, n.z);
    let px: i64 = fx_mul(ratio, tx);
    let py: i64 = fx_mul(ratio, ty);
    let pz: i64 = fx_mul(ratio, tz);
    proof {
        lemma_refract_perp_bounds(
            ratio as int, tx as int, ty as int, tz as int,
            px as int, py as int, pz as int,
        );
    }
    let psum: i64 = px * px + py * py + pz * pz;
    let pl: i64 = div_floor(psum as i128, SCALE as i128) as i64;
    proof {
        crate::fx::lemma_div_mag(psum as int, SCALE as int);
    }
    let m: i64 = if pl >= SCALE {
        0
    } else {
        SCALE - pl
    };
    let par: i64 = fx_sqrt(m);
    proof {
        lemma_refract_par_bounds(par as int, n.x as int, n.y as int, n.z as int);
    }
    Vec3 {
        x: px - fx_mul(par, n.x),
        y: py - fx_mul(par, n.y),
        z: pz - fx_mul(par, n.z),
    }
}

/// The cosine-scaled normal terms stay small.
proof fn lemma_refract_term_bounds(cos: int, nx: int, ny: int, nz: int, ratio: int)
    requires
        -SCALE <= cos <= SCALE,
        -SCALE <= nx <= SCALE,
        -SCALE <= ny <= SCALE,
        -SCALE <= nz <= SCALE,
        0 < ratio <= 4 * SCALE,
    ensures
        -0x30_0000 <= fxm(cos, nx) <= 0x30_0000,
        -0x30_0000 <= fxm(cos, ny) <= 0x30_0000,
        -0x30_0000 <= fxm(cos, nz) <= 0x30_0000,
{
    assert(-0x30_0000 * (SCALE as int) <= cos * nx <= 0x30_0000 * (SCALE as int)
        && -0x30_0000 * (SCALE as int) <= cos * ny <= 0x30_0000 * (SCALE as int)
        && -0x30_0000 * (SCALE as int) <= cos * nz <= 0x30_0000 * (SCALE as int))
        by (nonlinear_arith)
        requires
            -SCALE <= cos <= SCALE as int,
            -SCALE <= nx <= SCALE,
            -SCALE <= ny <= SCALE,
            -SCALE <= nz <= SCALE;
    crate::fx::lemma_div_scale_bound(cos * nx, 0x30_0000);
    crate::fx::lemma_div_scale_bound(cos * ny, 0x30_0000);
    crate::fx::lemma_div_scale_bound(cos * nz, 0x30_0000);
}

/// The scaled tangential components and their squares stay small.
proof fn lemma_refract_perp_bounds(
    ratio: int, tx: int, ty: int, tz: int, px: int, py: int, pz: int,
)
    requires
        0 < ratio <= 4 * SCALE,
        -0x38_0000 <= tx <= 0x38_0000,
        -0x38_0000 <= ty <= 0x38_0000,
        -0x38_0000 <= tz <= 0x38_0000,
        px == fxm(ratio, tx),
        py == fxm(ratio, ty),
        pz == fxm(ratio, tz),
    ensures
        -0xE0_0000 <= px <= 0xE0_0000,
        -0xE0_0000 <= py <= 0xE0_0000,
        -0xE0_0000 <= pz <= 0xE0_0000,
        0 <= px * px <= 0xC400_0000_0000,
        0 <= py * py <= 0xC400_0000_0000,
        0 <= pz * pz <= 0xC400_0000_0000,
{
    assert(-0xE0_0000 * (SCALE as int) <= ratio * tx <= 0xE0_0000 * (SCALE as int)
        && -0xE0_0000 * (SCALE as int) <= ratio * ty <= 0xE0_0000 * (SCALE as int)
        && -0xE0_0000 * (SCALE as int) <= ratio * tz <= 0xE0_0000 * (SCALE as int))
        by (nonlinear_arith)
        requires
            0 < ratio <= 4 * SCALE,
            -0x38_0000 <= tx <= 0x38_0000,
            -0x38_0000 <= ty <= 0x38_0000,
            -0x38_0000 <= tz <= 0x38_0000;
    crate::fx::lemma_div_scale_bound(ratio * tx, 0xE0_0000);
    crate::fx::lemma_div_scale_bound(ratio * ty, 0xE0_0000);
    crate::fx::lemma_div_scale_bound(ratio * tz, 0xE0_0000);
    assert(0 <= px * px <= 0xC400_0000_0000 && 0 <= py * py <= 0xC400_0000_0000
        && 0 <= pz * pz <= 0xC400_0000_0000) by (nonlinear_arith)
        requires
            -0xE0_0000 <= px <= 0xE0_0000,
            -0xE0_0000 <= py <= 0xE0_0000,
            -0xE0_0000 <= pz <= 0xE0_0000;
}

/// The parallel component's normal terms stay small.
proof fn lemma_refract_par_bounds(par: int, nx: int, ny: int, nz: int)
    requires
        0 <= par <= SCALE,
        -SCALE <= nx <= SCALE,
        -SCALE <= ny <= SCALE,
        -SCALE <= nz <= SCALE,
    ensures
        -SCALE <= fxm(par, nx) <= SCALE,
        -SCALE <= fxm(par, ny) <= SCALE,
        -SCALE <= fxm(par, nz) <= SCALE,
{
    assert(-(SCALE as int) * (SCALE as int) <= par * nx <= (SCALE as int) * (SCALE as int)
        && -(SCALE as int) * (SCALE as int) <= par * ny <= (SCALE as int) * (SCALE as int)
        && -(SCALE as int) * (SCALE as int) <= par * nz <= (SCALE as int) * (SCALE as int))
        by (nonlinear_arith)
        requires
            0 <= par <= SCALE as int,
            -SCALE <= nx <= SCALE,
            -SCALE <= ny <= SCALE,
            -SCALE <= nz <= SCALE;
    crate::fx::lemma_div_scale_bound(par * nx, SCALE as int);
    crate::fx::lemma_div_scale_bound(par * ny, SCALE as int);
    crate::fx::lemma_div_scale_bound(par * nz, SCALE as int);
}

/// Schlick's reflectance, computed exactly.
fn schlick(cos: i64, ratio: i64) -> (r: i64)
    requires
        -SCALE <= cos <= SCALE,
        0 < ratio <= 4 * SCALE,
    ensures
        r == sschlick(cos as int, ratio as int),
{
    proof {
        assert(-0x4_0000 * (SCALE as int) <= ((SCALE as int) - ratio as int) * (SCALE as int)
            <= 0x4_0000 * (SCALE as int)) by (nonlinear_arith)
            requires
                0 < ratio as int <= 4 * SCALE as int;
        crate::fx::lemma_div_mag(
            ((SCALE as int) - ratio as int) * (SCALE as int),
            (SCALE as int) + ratio as int,
        );
    }
    let q0: i64 = fx_div(SCALE - ratio, SCALE + ratio);
    let q: i64 = if q0 > 4 * SCALE {
        4 * SCALE
    } else if q0 < -4 * SCALE {
        -4 * SCALE
    } else {
        q0
    };
    proof {
        assert(0 <= (q as int) * (q as int) <= 0x10_0000 * (SCALE as int)) by (nonlinear_arith)
            requires
                -4 * (SCALE as int) <= q as int <= 4 * (SCALE as int);
        crate::fx::lemma_div_scale_bound((q as int) * (q as int), 0x10_0000);
        vstd::arithmetic::div_mod::lemma_div_pos_is_pos((q as int) * (q as int), SCALE as int);
    }
    let r0: i64 = fx_mul(q, q);
    let omc: i64 = SCALE - cos;
    proof {
        assert(0 <= (omc as int) * (omc as int) <= 0x4_0000 * (SCALE as int)) by (nonlinear_arith)
            requires
                0 <= omc as int <= 2 * (SCALE as int);
        crate::fx::lemma_div_scale_bound((omc as int) * (omc as int), 0x4_0000);
        vstd::arithmetic::div_mod::lemma_div_pos_is_pos(
            (omc as int) * (omc as int),
            SCALE as int,
        );
    }
    let p2: i64 = fx_mul(omc, omc);
    proof {
        assert(0 <= (p2 as int) * (p2 as int) <= 0x10_0000 * (SCALE as int)) by (nonlinear_arith)
            requires
                0 <= p2 as int <= 0x4_0000;
        crate::fx::lemma_div_scale_bound((p2 as int) * (p2 as int), 0x10_0000);
        vstd::arithmetic::div_mod::lemma_div_pos_is_pos((p2 as int) * (p2 as int), SCALE as int);
    }
    let p4: i64 = fx_mul(p2, p2);
    proof {
        assert(0 <= (p4 as int) * (omc as int) <= 0x20_0000 * (SCALE as int)) by (nonlinear_arith)
            requires
                0 <= p4 as int <= 0x10_0000,
                0 <= omc as int <= 2 * (SCALE as int);
        crate::fx::lemma_div_scale_bound((p4 as int) * (omc as int), 0x20_0000);
        vstd::arithmetic::div_mod::lemma_div_pos_is_pos((p4 as int) * (omc as int), SCALE as int);
    }
    let p5: i64 = fx_mul(p4, omc);
    proof {
        assert(-0x400_0000 * (SCALE as int) <= ((SCALE as int) - r0 as int) * (p5 as int)
            <= 0x400_0000 * (SCALE as int)) by (nonlinear_arith)
            requires
                0 <= r0 as int <= 0x10_0000,
                0 <= p5 as int <= 0x20_0000;
        crate::fx::lemma_div_scale_bound(((SCALE as int) - r0 as int) * (p5 as int), 0x400_0000);
    }
    let blend: i64 = fx_mul(SCALE - r0, p5);
    r0 + blend
}


/// A unit direction scaled by a fuzz within one unit stays within a unit.
proof fn lemma_fuzz_scale_bound(v: Vec3, fuzz: int)
    requires
        bounded(v, SCALE as int),
        -SCALE <= fuzz <= SCALE,
    ensures
        -(SCALE as int) * (SCALE as int) <= v.x * fuzz <= (SCALE as int) * (SCALE as int),
        -(SCALE as int) * (SCALE as int) <= v.y * fuzz <= (SCALE as int) * (SCALE as int),
        -(SCALE as int) * (SCALE as int) <= v.z * fuzz <= (SCALE as int) * (SCALE as int),
        -SCALE <= v.x * fuzz / (SCALE as int) <= SCALE,
        -SCALE <= v.y * fuzz / (SCALE as int) <= SCALE,
        -SCALE <= v.z * fuzz / (SCALE as int) <= SCALE,
{
    assert(-(SCALE as int) * (SCALE as int) <= v.x * fuzz <= (SCALE as int) * (SCALE as int)
        && -(SCALE as int) * (SCALE as int) <= v.y * fuzz <= (SCALE as int) * (SCALE as int)
        && -(SCALE as int) * (SCALE as int) <= v.z * fuzz <= (SCALE as int) * (SCALE as int))
        by (nonlinear_arith)
        requires
            bounded(v, SCALE as int),
            -SCALE <= fuzz <= SCALE as int;
    crate::fx::lemma_div_scale_bound(v.x * fuzz, SCALE as int);
    crate::fx::lemma_div_scale_bound(v.y * fuzz, SCALE as int);
    crate::fx::lemma_div_scale_bound(v.z * fuzz, SCALE as int);
}

/// `fxm(cos, cos)` of a clamped cosine is within one unit squared.
proof fn lemma_fxm_sq_bound(cos: int)
    requires
        -SCALE <= cos <= SCALE,
    ensures
        0 <= cos * cos <= (SCALE as int) * (SCALE as int),
        0 <= fxm(cos, cos) <= SCALE as int,
{
    assert(0 <= cos * cos <= (SCALE as int) * (SCALE as int)) by (nonlinear_arith)
        requires
            -SCALE <= cos <= SCALE as int;
    crate::fx::lemma_div_scale_bound(cos * cos, SCALE as int);
    vstd::arithmetic::div_mod::lemma_div_pos_is_pos(cos * cos, SCALE as int);
}

/// The emitted radiance, as a mathematical function of material and hit.
pub open spec fn emitted_radiance(m: Material, h: HitRecord) -> Vec3 {
    match m {
        Material::DiffuseLight(dl) => {
            if h.front_face {
                tex_color(dl.emission, h.u as int, h.v as int, h.hit_point)
            } else {
                Vec3 { x: 0i64, y: 0i64, z: 0i64 }
            }
        },
        _ => Vec3 { x: 0i64, y: 0i64, z: 0i64 },
    }
}

/// The material's own scattering density for a direction.
pub open spec fn scatter_density(m: Material, h: HitRecord, scattered: Ray) -> int {
    match m {
        Material::Lambertian(_) => cosine_density(h.normal, scattered.direction),
        Material::Isotropic(_) => sphere_density(),
        _ => 0,
    }
}

} // verus!
