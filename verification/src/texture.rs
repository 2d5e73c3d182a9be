//! Textures: procedural or raster sources of color, looked up by surface
//! coordinates `(u, v)` and by the hit point.

use vstd::prelude::*;
use crate::fx::{fx_mul, fxm, mod_floor, SCALE, FX_ARG_MAX};
use crate::perlin::{Perlin, perlin_wf, sperlin_color};
use crate::ray::PB;
use crate::vec3::{Vec3, bounded};

verus! {

/// Bound on the components of any color a texture yields.
pub const CMAX: i64 = 0x1_0000_0000;

#[derive(Debug)]
pub enum Texture {
    SolidColor(SolidColor),
    Checkers(Checkers),
    ImageTex(ImageTex),
    Perlin(Perlin),
}

#[derive(Debug)]
pub struct SolidColor {
    pub albedo: Vec3,
}

#[derive(Debug)]
pub struct Checkers {
    pub even: Box<Texture>,
    pub odd: Box<Texture>,
    pub inverse_scale: i64,
}

/// A decoded raster held as fixed-point colors, row-major, top to bottom.
#[derive(Debug)]
pub struct ImageTex {
    pub pixels: Vec<Vec3>,
    pub width: usize,
    pub height: usize,
}

/// Well-formed texture data: colors within `CMAX`, scales within the
/// fixed-point multiplier's range, raster dimensions consistent.
pub open spec fn tex_wf(t: Texture) -> bool
    decreases t,
{
    match t {
        Texture::SolidColor(s) => bounded(s.albedo, CMAX as int),
        Texture::Checkers(c) => {
            &&& 0 <= c.inverse_scale <= 0x1_0000_0000
            &&& tex_wf(*c.even)
            &&& tex_wf(*c.odd)
        },
        Texture::ImageTex(img) => {
            &&& 1 <= img.width <= 0x10000
            &&& 1 <= img.height <= 0x10000
            &&& img.pixels.len() == img.width * img.height
            &&& forall|i: int|
                0 <= i < img.pixels.len() ==> bounded(#[trigger] img.pixels[i], CMAX as int)
        },
        Texture::Perlin(per) => perlin_wf(per),
    }
}

/// The raster index a coordinate `c` in fixed-point `[0, 1)` maps to,
/// wrapped toroidally over `n` texels.
pub open spec fn texel_index(c: int, n: int) -> int {
    (c * n / (SCALE as int)) % n
}

/// The color a texture yields, as a mathematical function of the lookup.
pub open spec fn tex_color(t: Texture, u: int, v: int, p: Vec3) -> Vec3
    decreases t,
{
    match t {
        Texture::SolidColor(s) => s.albedo,
        Texture::Checkers(c) => {
            let xi = fxm(c.inverse_scale as int, p.x as int) / (SCALE as int);
            let yi = fxm(c.inverse_scale as int, p.y as int) / (SCALE as int);
            let zi = fxm(c.inverse_scale as int, p.z as int) / (SCALE as int);
            if (xi + yi + zi) % 2 == 0 {
                tex_color(*c.even, u, v, p)
            } else {
                tex_color(*c.odd, u, v, p)
            }
        },
        Texture::ImageTex(img) => {
            let x = texel_index(u, img.width as int);
            let y = texel_index(v, img.height as int);
            img.pixels@[y * img.width as int + x]
        },
        Texture::Perlin(per) => {
            let c = sperlin_color(per, p);
            Vec3 { x: c as i64, y: c as i64, z: c as i64 }
        },
    }
}

impl Texture {
    pub fn solid_color(albedo: Vec3) -> (r: Texture)
        requires
            bounded(albedo, CMAX as int),
        ensures
            r == Texture::SolidColor(SolidColor { albedo }),
            tex_wf(r),
    {
        Texture::SolidColor(SolidColor { albedo })
    }

    /// Checkered texture of two sub-textures; `scale` is the edge length of
    /// one cell in fixed-point units.
    pub fn checkers(even: Texture, odd: Texture, scale: i64) -> (r: Texture)
        requires
            scale > 0,
            tex_wf(even),
            tex_wf(odd),
        ensures
            r matches Texture::Checkers(c)
                && *c.even == even
                && *c.odd == odd
                && c.inverse_scale == SCALE as int * SCALE as int / scale as int,
            tex_wf(r),
    {
        let inverse_scale: i64 = crate::fx::fx_div(SCALE, scale);
        proof {
            vstd::arithmetic::div_mod::lemma_div_is_ordered(
                0,
                SCALE as int * SCALE as int,
                scale as int,
            );
            vstd::arithmetic::div_mod::lemma_div_is_ordered_by_denominator(
                SCALE as int * SCALE as int,
                1,
                scale as int,
            );
            vstd::arithmetic::div_mod::lemma_div_basics(SCALE as int * SCALE as int);
        }
        Texture::Checkers(Checkers {
            even: Box::new(even),
            odd: Box::new(odd),
            inverse_scale,
        })
    }

    pub fn checkers_from_vec3(even: Vec3, odd: Vec3, scale: i64) -> (r: Texture)
        requires
            scale > 0,
            bounded(even, CMAX as int),
            bounded(odd, CMAX as int),
        ensures
            r matches Texture::Checkers(c)
                && *c.even == Texture::SolidColor(SolidColor { albedo: even })
                && *c.odd == Texture::SolidColor(SolidColor { albedo: odd })
                && c.inverse_scale == SCALE as int * SCALE as int / scale as int,
            tex_wf(r),
    {
        Texture::checkers(Texture::solid_color(even), Texture::solid_color(odd), scale)
    }

    /// A raster texture from an already decoded image.
    pub fn image_tex(pixels: Vec<Vec3>, width: usize, height: usize) -> (r: Texture)
        requires
            1 <= width <= 0x10000,
            1 <= height <= 0x10000,
            pixels.len() == width * height,
            forall|i: int| 0 <= i < pixels.len() ==> bounded(#[trigger] pixels[i], CMAX as int),
        ensures
            r == Texture::ImageTex(ImageTex { pixels, width, height }),
            tex_wf(r),
    {
        Texture::ImageTex(ImageTex { pixels, width, height })
    }

    /// Banded noise, `scale` (fixed-point) stretching the bands.
    pub fn perlin(scale: i64) -> (r: Texture)
        requires
            0 < scale <= 0x100_0000,
        ensures
            r matches Texture::Perlin(per) && per.scale == scale,
            tex_wf(r),
    {
        Texture::Perlin(Perlin::new(scale))
    }

    /// Look the texture up at surface coordinates `(u, v)` and hit point `p`.
    pub fn get_color_value(&self, u: i64, v: i64, hit_point: Vec3) -> (r: Vec3)
        requires
            tex_wf(*self),
            -FX_ARG_MAX <= u <= FX_ARG_MAX,
            -FX_ARG_MAX <= v <= FX_ARG_MAX,
            bounded(hit_point, PB as int),
        ensures
            r == tex_color(*self, u as int, v as int, hit_point),
            bounded(r, CMAX as int),
        decreases *self,
    {
        match self {
            Texture::SolidColor(s) => s.albedo,
            Texture::Checkers(c) => {
                proof {
                    lemma_cell_product_bound(c.inverse_scale as int, hit_point.x as int);
                    lemma_cell_product_bound(c.inverse_scale as int, hit_point.y as int);
                    lemma_cell_product_bound(c.inverse_scale as int, hit_point.z as int);
                    crate::fx::lemma_div_scale_bound(
                        c.inverse_scale as int * hit_point.x as int, 0x44_0000_0000_0000);
                    crate::fx::lemma_div_scale_bound(
                        c.inverse_scale as int * hit_point.y as int, 0x44_0000_0000_0000);
                    crate::fx::lemma_div_scale_bound(
                        c.inverse_scale as int * hit_point.z as int, 0x44_0000_0000_0000);
                }
                let xs: i64 = fx_mul(c.inverse_scale, hit_point.x);
                let ys: i64 = fx_mul(c.inverse_scale, hit_point.y);
                let zs: i64 = fx_mul(c.inverse_scale, hit_point.z);
                proof {
                    crate::fx::lemma_div_mag(xs as int, SCALE as int);
                    crate::fx::lemma_div_mag(ys as int, SCALE as int);
                    crate::fx::lemma_div_mag(zs as int, SCALE as int);
                }
                let xi: i64 = crate::fx::div_floor(xs as i128, SCALE as i128) as i64;
                let yi: i64 = crate::fx::div_floor(ys as i128, SCALE as i128) as i64;
                let zi: i64 = crate::fx::div_floor(zs as i128, SCALE as i128) as i64;
                let parity: i64 = mod_floor3(xi, yi, zi);
                if parity == 0 {
                    c.even.get_color_value(u, v, hit_point)
                } else {
                    c.odd.get_color_value(u, v, hit_point)
                }
            },
            Texture::Perlin(per) => per.get_color_value(hit_point),
            Texture::ImageTex(img) => {
                let x: usize = texel_lookup(u, img.width);
                let y: usize = texel_lookup(v, img.height);
                proof {
                    lemma_texel_in_raster(x as int, y as int, img.width as int, img.height as int);
                }
                let idx: usize = y * img.width + x;
                img.pixels[idx]
            },
        }
    }
}

/// The Euclidean parity of a sum of three fixed-point cell indices.
fn mod_floor3(a: i64, b: i64, c: i64) -> (r: i64)
    requires
        -0x2000_0000_0000_0000 <= a <= 0x2000_0000_0000_0000,
        -0x2000_0000_0000_0000 <= b <= 0x2000_0000_0000_0000,
        -0x2000_0000_0000_0000 <= c <= 0x2000_0000_0000_0000,
    ensures
        r == (a + b + c) % 2,
{
    mod_floor(a + b + c, 2)
}

/// One raster coordinate: `c * n / SCALE`, wrapped toroidally over `n`.
fn texel_lookup(c: i64, n: usize) -> (r: usize)
    requires
        1 <= n <= 0x10000,
        -FX_ARG_MAX <= c <= FX_ARG_MAX,
    ensures
        r == texel_index(c as int, n as int),
        r < n,
{
    proof {
        crate::fx::lemma_fx_texel_bound(c as int, n as int);
    }
    let p: i128 = (c as i128) * (n as i128);
    let q: i128 = crate::fx::div_floor(p, SCALE as i128);
    let m: i64 = mod_floor(q as i64, n as i64);
    m as usize
}

/// The product of a checker cell scale and a hit point component stays
/// within `0x44_0000_0000_0000 * SCALE`.
proof fn lemma_cell_product_bound(inv: int, p: int)
    by (nonlinear_arith)
    requires
        0 <= inv <= 0x1_0000_0000,
        -PB <= p <= PB,
    ensures
        -0x44_0000_0000_0000 * (SCALE as int) <= inv * p <= 0x44_0000_0000_0000 * (SCALE as int),
{
}

/// If `x < w` and `y < h`, the row-major index lies inside the raster.
proof fn lemma_texel_in_raster(x: int, y: int, w: int, h: int)
    by (nonlinear_arith)
    requires
        0 <= x < w,
        0 <= y < h,
    ensures
        0 <= y * w + x < w * h,
{
}

} // verus!
