//! The scene and the integrator: recursive radiance estimation with light
//! importance sampling, and the top-level render loop.
//!
//! Numeric policy: every radiance value is sanitized after each combination
//! step, clamping components into `[0, RAD_MAX]`; a zero sampling density
//! contributes nothing instead of dividing by zero.

use vstd::prelude::*;
use crate::camera::{Camera, camera_wf};
use crate::fx::{div_floor, fx_sqrt, isqrt, SCALE};
use crate::hittable::{HitRecord, hit_wf};
use crate::material::Scattered;
use crate::vec3::snormalize;
use crate::pdf::{PDF, pdf_wf};
use crate::ray::{Ray, ray_wf, CB, T_MAX, T_EPS};
use crate::shape::{Shape, shape_wf, shape_surely_misses, hits_list};
use crate::sphere::{Sphere, s_get_uv};
use crate::material::emitted_radiance;
use crate::texture::{Texture, tex_wf, tex_color, CMAX};
use crate::util::random_fx_unit;
use crate::vec3::{Vec3, bounded};

verus! {

/// Cap on any radiance component the integrator hands on.
pub const RAD_MAX: i64 = 0x10_0000_0000;

pub struct Scene {
    pub camera: Camera,
    pub world: Vec<Shape>,
    pub light: Option<Shape>,
    pub samples: u32,
    pub max_depth: u32,
    pub background_color: Vec3,
    pub background_texture: Option<Texture>,
}

pub open spec fn scene_wf(s: Scene) -> bool {
    &&& camera_wf(s.camera)
    &&& forall|i: int| 0 <= i < s.world.len() ==> shape_wf(#[trigger] s.world[i])
    &&& (s.light matches Some(l) ==> shape_wf(l))
    &&& 1 <= s.samples <= 0x1_0000
    &&& s.max_depth <= 64
    &&& bounded(s.background_color, CMAX as int)
    &&& (s.background_texture matches Some(t) ==> tex_wf(t))
}

/// The background radiance for a direction, as a mathematical function:
/// the solid color, or the texture looked up at the normalized direction's
/// spherical coordinates.
pub open spec fn sbackground(s: Scene, dir: Vec3) -> Vec3 {
    match s.background_texture {
        None => s.background_color,
        Some(t) => {
            let nd = if crate::vec3::sdot(dir, dir) == 0 {
                (0int, 0int, SCALE as int)
            } else {
                snormalize(dir)
            };
            let ndv = Vec3 { x: nd.0 as i64, y: nd.1 as i64, z: nd.2 as i64 };
            let uv = s_get_uv(ndv);
            tex_color(t, uv.0, uv.1, Vec3 { x: 0i64, y: 0i64, z: 0i64 })
        },
    }
}

/// The clamped image of a radiance vector.
pub open spec fn sclamp_radiance(v: Vec3) -> Vec3 {
    Vec3 {
        x: clamp_component(v.x as int) as i64,
        y: clamp_component(v.y as int) as i64,
        z: clamp_component(v.z as int) as i64,
    }
}

/// Every member of the world surely misses the ray over the standard
/// interval, whatever any random draw does.
pub open spec fn world_surely_misses(s: Scene, ray: Ray) -> bool {
    forall|i: int|
        0 <= i < s.world.len() ==> shape_surely_misses(
            #[trigger] s.world[i],
            ray,
            T_EPS as int,
            T_MAX as int,
        )
}

/// Every well-formed ray surely misses every member of the world, and the
/// background is the plain color, so each sample is the same value.
pub open spec fn all_rays_surely_miss(s: Scene) -> bool {
    &&& s.max_depth > 0
    &&& s.background_texture is None
    &&& forall|rr: Ray| ray_wf(rr) ==> world_surely_misses(s, rr)
}

/// The number of stratified sub-samples a pixel really takes: the side of
/// the jitter grid squared, the next perfect square at or above the
/// nominal count.
pub open spec fn grid_side(samples: int) -> int {
    let s = crate::fx::sqrt_floor(samples);
    if s * s >= samples {
        s
    } else {
        s + 1
    }
}

/// The one pixel value a surely-missed scene renders everywhere: the
/// clamped background summed over the realized grid, averaged over the
/// nominal count, tone mapped.
pub open spec fn miss_pixel(s: Scene) -> (int, int, int) {
    let cl = sclamp_radiance(s.background_color);
    let n = grid_side(s.samples as int);
    (
        stone_map(n * n * cl.x, s.samples as int),
        stone_map(n * n * cl.y, s.samples as int),
        stone_map(n * n * cl.z, s.samples as int),
    )
}

/// The three bytes of pixel `p` in a raster buffer equal the uniform miss
/// pixel of the scene.
pub open spec fn pixel_is_miss(buf: Seq<u8>, s: Scene, p: int) -> bool {
    &&& buf[3 * p] as int == miss_pixel(s).0
    &&& buf[3 * p + 1] as int == miss_pixel(s).1
    &&& buf[3 * p + 2] as int == miss_pixel(s).2
}

/// All components within `[0, RAD_MAX]`.
pub open spec fn radiance_ok(v: Vec3) -> bool {
    0 <= v.x <= RAD_MAX && 0 <= v.y <= RAD_MAX && 0 <= v.z <= RAD_MAX
}

impl Scene {
    /// An empty scene under a pale blue sky, with a default pinhole camera.
    pub fn new() -> (r: Scene)
        ensures
            scene_wf(r),
            r.world.len() == 0,
            r.light is None,
            r.samples == 100,
            r.max_depth == 50,
    {
        let camera: Camera = Camera::new(
            Vec3 { x: 0, y: 0, z: 0 },
            Vec3 { x: -116508, y: 65536, z: -65536 },
            Vec3 { x: 182, y: 0, z: 0 },
            Vec3 { x: 0, y: 182, z: 0 },
            Vec3 { x: 0, y: 0, z: 0 },
            Vec3 { x: 0, y: 0, z: 0 },
            false,
            1280,
            720,
        );
        Scene {
            camera,
            world: Vec::new(),
            light: None,
            samples: 100,
            max_depth: 50,
            background_color: Vec3 { x: 32768, y: 45875, z: SCALE },
            background_texture: None,
        }
    }

    /// Install an already decoded equirectangular background texture.
    pub fn set_background_texture(&mut self, texture: Texture)
        requires
            scene_wf(*old(self)),
            tex_wf(texture),
        ensures
            scene_wf(*final(self)),
            final(self).background_texture == Some(texture),
            final(self).camera == old(self).camera,
            final(self).world == old(self).world,
            final(self).light == old(self).light,
            final(self).samples == old(self).samples,
            final(self).max_depth == old(self).max_depth,
            final(self).background_color == old(self).background_color,
    {
        self.background_texture = Some(texture);
    }

    /// The background radiance for a ray direction: the solid color, or an
    /// equirectangular texture sampled by the direction's spherical
    /// coordinates.
    pub fn get_background(&self, ray_direction: Vec3) -> (r: Vec3)
        requires
            scene_wf(*self),
            bounded(ray_direction, crate::ray::DB as int),
        ensures
            bounded(r, CMAX as int),
            r == sbackground(*self, ray_direction),
            self.background_texture is None ==> r == self.background_color,
    {
        match &self.background_texture {
            None => self.background_color,
            Some(texture) => {
                let d: Vec3 = if ray_direction.length_squared() == 0 {
                    Vec3 { x: 0, y: 0, z: SCALE }
                } else {
                    ray_direction.normalize()
                };
                let uv: (i64, i64) = Sphere::get_uv(d);
                texture.get_color_value(uv.0, uv.1, Vec3 { x: 0, y: 0, z: 0 })
            },
        }
    }

    /// The recursive radiance estimate: zero at the depth cutoff, the
    /// background on a miss (owed whenever every member surely misses), and
    /// otherwise the hit handed to `shade` with whatever the material's
    /// scattering decided.
    pub fn ray_color(&self, ray: Ray, depth: u32) -> (r: Vec3)
        requires
            scene_wf(*self),
            ray_wf(ray),
        ensures
            radiance_ok(r),
            depth == 0 ==> r == (Vec3 { x: 0i64, y: 0i64, z: 0i64 }),
            depth > 0 && world_surely_misses(*self, ray) ==> r == sclamp_radiance(
                sbackground(*self, ray.direction),
            ),
        decreases depth, 2int,
    {
        if depth == 0 {
            return Vec3 { x: 0, y: 0, z: 0 };
        }
        let hit: Option<HitRecord> = hits_list(&self.world, &ray, T_EPS, T_MAX);
        let h: HitRecord = match hit {
            None => {
                let bg: Vec3 = self.get_background(ray.direction);
                return clamp_radiance(bg);
            },
            Some(h) => h,
        };
        let sc: Option<Scattered> = h.material.scatters(&h);
        self.shade(&h, sc, depth)
    }

    /// Turn one intersection and its scattering outcome into radiance: a
    /// material that does not scatter contributes exactly its clamped
    /// emission; a scattering one contributes the attenuated recursive
    /// estimate, importance sampled toward the scene light when one is
    /// configured. A scattered ray whose origin drifted outside the scene
    /// bounds is treated as absorbed.
    pub fn shade(&self, hit_record: &HitRecord, sc: Option<Scattered>, depth: u32) -> (r: Vec3)
        requires
            scene_wf(*self),
            hit_wf(*hit_record),
            depth >= 1,
            sc matches Some(s) ==> {
                &&& s.scattered.origin == hit_record.hit_point
                &&& s.scattered.time == hit_record.ray.time
                &&& bounded(s.scattered.direction, SCALE as int)
                &&& bounded(s.attenuation, CMAX as int)
                &&& (s.pdf matches Some(p) ==> pdf_wf(p))
            },
        ensures
            radiance_ok(r),
            sc is None ==> r == sclamp_radiance(
                emitted_radiance(*hit_record.material, *hit_record),
            ),
        decreases depth, 1int,
    {
        let s: Scattered = match sc {
            None => {
                let e: Vec3 = hit_record.material.emitted(hit_record);
                return clamp_radiance(e);
            },
            Some(s) => s,
        };
        // a hit point that drifted outside the scene bounds cannot seed a
        // well-formed ray; treat the path as absorbed
        let o: Vec3 = s.scattered.origin;
        if !(-CB <= o.x && o.x <= CB && -CB <= o.y && o.y <= CB && -CB <= o.z && o.z <= CB) {
            return Vec3 { x: 0, y: 0, z: 0 };
        }
        match &self.light {
            None => {
                let rec: Vec3 = self.ray_color(s.scattered, depth - 1);
                proof {
                    lemma_modulate_bounds(s.attenuation, rec);
                }
                clamp_radiance(s.attenuation.mul_elem(rec))
            },
            Some(light) => self.handle_light_pdf(hit_record, s, depth, light),
        }
    }

    /// Importance-sample the bounce direction from an even mixture of the
    /// light's density and the material's own density, and weight the
    /// recursive estimate by the ratio of the scattering density to the
    /// mixture density. Materials without a density (the specular ones)
    /// fall back to the plain attenuated estimate.
    fn handle_light_pdf(&self, hit_record: &HitRecord, scattered: Scattered, depth: u32, light: &Shape) -> (r: Vec3)
        requires
            scene_wf(*self),
            hit_wf(*hit_record),
            shape_wf(*light),
            depth >= 1,
            bounded(scattered.scattered.origin, CB as int),
            bounded(scattered.scattered.direction, SCALE as int),
            0 <= scattered.scattered.time < SCALE,
            bounded(scattered.attenuation, CMAX as int),
            scattered.pdf matches Some(p) ==> pdf_wf(p),
        ensures
            radiance_ok(r),
        decreases depth, 0int,
    {
        let origin: Vec3 = scattered.scattered.origin;
        let time: i64 = scattered.scattered.time;
        match scattered.pdf {
            None => {
                let rec: Vec3 = self.ray_color(scattered.scattered, depth - 1);
                proof {
                    lemma_modulate_bounds(scattered.attenuation, rec);
                }
                clamp_radiance(scattered.attenuation.mul_elem(rec))
            },
            Some(surface_pdf) => {
                let light_pdf: PDF = PDF::hittable(light, &origin);
                let mixed: PDF = PDF::mixture(light_pdf, surface_pdf);
                let new_dir: Vec3 = mixed.generate();
                let out_ray: Ray = Ray::with_time(origin, new_dir, time);
                let pdf_value: i64 = mixed.value(&new_dir);
                let scattering_pdf: i64 = hit_record.material.scattering_pdf(
                    &hit_record.ray,
                    hit_record,
                    &out_ray,
                );
                if pdf_value == 0 {
                    // the drawn direction has no density: nothing to weight
                    return Vec3 { x: 0, y: 0, z: 0 };
                }
                let rec: Vec3 = self.ray_color(out_ray, depth - 1);
                proof {
                    lemma_modulate_bounds(scattered.attenuation, rec);
                }
                let gathered: Vec3 = clamp_radiance(scattered.attenuation.mul_elem(rec));
                proof {
                    lemma_weight_bounds(gathered, scattering_pdf as int);
                }
                let weighted: Vec3 = clamp_radiance(gathered.scale(scattering_pdf));
                let x: i64 = weight_component(weighted.x, pdf_value);
                let y: i64 = weight_component(weighted.y, pdf_value);
                let z: i64 = weight_component(weighted.z, pdf_value);
                clamp_radiance(Vec3 { x, y, z })
            },
        }
    }

    /// One pixel's tone-mapped color: the stratified Monte Carlo estimate,
    /// averaged, gamma-corrected by square root, and quantized to a byte
    /// per channel. A zero depth cutoff yields black whatever the scene;
    /// a scene every ray surely misses yields the tone-mapped background.
    pub fn render_pixel(&self, x: u32, y: u32) -> (rgb: (u8, u8, u8))
        requires
            scene_wf(*self),
            x < self.camera.image_width,
            y < self.camera.image_height,
        ensures
            self.max_depth == 0 ==> rgb == (0u8, 0u8, 0u8),
            all_rays_surely_miss(*self) ==> (rgb.0 as int, rgb.1 as int, rgb.2 as int)
                == miss_pixel(*self),
    {
        let ghost cl = sclamp_radiance(self.background_color);
        let sqrt_spp: u64 = isqrt(self.samples as u128);
        proof {
            assert(sqrt_spp as int <= 0x100) by {
                if sqrt_spp as int > 0x100 {
                    assert((sqrt_spp as int) * (sqrt_spp as int) > 0x100 * 0x100)
                        by (nonlinear_arith)
                        requires
                            sqrt_spp as int > 0x100;
                }
            };
            assert((sqrt_spp as int) * (sqrt_spp as int) <= 0x100 * 0x100) by (nonlinear_arith)
                requires
                    0 <= sqrt_spp as int <= 0x100;
        }
        let n: u32 = if (sqrt_spp as u32) * (sqrt_spp as u32) >= self.samples {
            sqrt_spp as u32
        } else {
            sqrt_spp as u32 + 1
        };
        proof {
            assert(1 <= n <= 0x200) by (nonlinear_arith)
                requires
                    1 <= self.samples <= 0x1_0000,
                    0 <= sqrt_spp as int <= 0x100,
                    (sqrt_spp as int) * (sqrt_spp as int) <= self.samples,
                    n == if (sqrt_spp as int) * (sqrt_spp as int) >= self.samples {
                        sqrt_spp as int
                    } else {
                        sqrt_spp as int + 1
                    };
        }
        let mut sum: Vec3 = Vec3 { x: 0, y: 0, z: 0 };
        let mut sj: u32 = 0;
        let ghost total = (n * n) as int;
        while sj < n
            invariant
                scene_wf(*self),
                x < self.camera.image_width,
                y < self.camera.image_height,
                1 <= n <= 0x200,
                sj <= n,
                0 <= sum.x <= (sj as int) * (n as int) * (RAD_MAX as int),
                0 <= sum.y <= (sj as int) * (n as int) * (RAD_MAX as int),
                0 <= sum.z <= (sj as int) * (n as int) * (RAD_MAX as int),
                self.max_depth == 0 ==> sum == (Vec3 { x: 0i64, y: 0i64, z: 0i64 }),
                cl == sclamp_radiance(self.background_color),
                all_rays_surely_miss(*self) ==> (sum.x == (sj as int) * (n as int) * (cl.x as int)
                    && sum.y == (sj as int) * (n as int) * (cl.y as int) && sum.z == (sj as int)
                    * (n as int) * (cl.z as int)),
            decreases n - sj,
        {
            let mut si: u32 = 0;
            while si < n
                invariant
                    scene_wf(*self),
                    x < self.camera.image_width,
                    y < self.camera.image_height,
                    1 <= n <= 0x200,
                    sj < n,
                    si <= n,
                    0 <= sum.x <= ((sj as int) * (n as int) + si as int) * (RAD_MAX as int),
                    0 <= sum.y <= ((sj as int) * (n as int) + si as int) * (RAD_MAX as int),
                    0 <= sum.z <= ((sj as int) * (n as int) + si as int) * (RAD_MAX as int),
                    self.max_depth == 0 ==> sum == (Vec3 { x: 0i64, y: 0i64, z: 0i64 }),
                    cl == sclamp_radiance(self.background_color),
                    all_rays_surely_miss(*self) ==> (sum.x == ((sj as int) * (n as int)
                        + si as int) * (cl.x as int) && sum.y == ((sj as int) * (n as int)
                        + si as int) * (cl.y as int) && sum.z == ((sj as int) * (n as int)
                        + si as int) * (cl.z as int)),
                decreases n - si,
            {
                let u: i64 = pixel_coordinate(x, si, n);
                let v: i64 = pixel_coordinate(y, sj, n);
                let ray: Ray = self.camera.get_ray(u, v);
                let c: Vec3 = self.ray_color(ray, self.max_depth);
                proof {
                    lemma_sample_sum_bound(sj as int, si as int, n as int);
                    if all_rays_surely_miss(*self) {
                        assert(world_surely_misses(*self, ray));
                        assert(c == cl);
                        lemma_uniform_sum_step(
                            (sj as int) * (n as int) + si as int,
                            cl.x as int,
                            cl.y as int,
                            cl.z as int,
                        );
                    }
                }
                sum = sum.add(c);
                si = si + 1;
            }
            proof {
                lemma_row_step(sj as int, n as int);
            }
            sj = sj + 1;
        }
        proof {
            lemma_pixel_total(n as int);
            assert(n as int == grid_side(self.samples as int)) by {
                crate::fx::lemma_sqrt_floor_unique(self.samples as int, sqrt_spp as int);
            };
        }
        // the grid realizes the next perfect square of samples, but the
        // average is taken over the nominal count
        let count: i64 = self.samples as i64;
        let rr: u8 = tone_map(sum.x, count);
        let gg: u8 = tone_map(sum.y, count);
        let bb: u8 = tone_map(sum.z, count);
        (rr, gg, bb)
    }

    /// The whole raster, row-major, top to bottom, three bytes per pixel.
    /// A zero depth cutoff yields an all-black buffer; a scene every ray
    /// surely misses yields the tone-mapped background in every pixel.
    pub fn render(&self) -> (buf: Vec<u8>)
        requires
            scene_wf(*self),
        ensures
            buf.len() == 3 * self.camera.image_width * self.camera.image_height,
            self.max_depth == 0 ==> forall|i: int| 0 <= i < buf.len() ==> #[trigger] buf[i] == 0,
            all_rays_surely_miss(*self) ==> forall|p: int|
                0 <= p < self.camera.image_width * self.camera.image_height
                    ==> #[trigger] pixel_is_miss(buf@, *self, p),
    {
        let w: u32 = self.camera.image_width;
        let h: u32 = self.camera.image_height;
        let mut buf: Vec<u8> = Vec::new();
        let mut y: u32 = 0;
        while y < h
            invariant
                scene_wf(*self),
                w == self.camera.image_width,
                h == self.camera.image_height,
                y <= h,
                buf.len() == 3 * w * y,
                self.max_depth == 0 ==> forall|i: int|
                    0 <= i < buf.len() ==> #[trigger] buf[i] == 0,
                all_rays_surely_miss(*self) ==> forall|p: int|
                    0 <= p < (w as int) * (y as int) ==> #[trigger] pixel_is_miss(
                        buf@,
                        *self,
                        p,
                    ),
            decreases h - y,
        {
            let mut x: u32 = 0;
            while x < w
                invariant
                    scene_wf(*self),
                    w == self.camera.image_width,
                    h == self.camera.image_height,
                    y < h,
                    x <= w,
                    buf.len() == 3 * w * y + 3 * x,
                    self.max_depth == 0 ==> forall|i: int|
                        0 <= i < buf.len() ==> #[trigger] buf[i] == 0,
                    all_rays_surely_miss(*self) ==> forall|p: int|
                        0 <= p < (w as int) * (y as int) + x ==> #[trigger] pixel_is_miss(
                            buf@,
                            *self,
                            p,
                        ),
                decreases w - x,
            {
                let ghost before = buf@;
                let ghost filled = (w as int) * (y as int) + x as int;
                let (rr, gg, bb): (u8, u8, u8) = self.render_pixel(x, y);
                buf.push(rr);
                buf.push(gg);
                buf.push(bb);
                proof {
                    assert(3 * (w as int) * (y as int) == 3 * ((w as int) * (y as int)))
                        by (nonlinear_arith);
                    assert(before.len() == 3 * filled);
                    if all_rays_surely_miss(*self) {
                        assert forall|p: int| 0 <= p < filled + 1 implies #[trigger] pixel_is_miss(
                            buf@,
                            *self,
                            p,
                        ) by {
                            if p < filled {
                                assert(pixel_is_miss(before, *self, p));
                                assert(3 * p + 2 < before.len());
                                assert(buf@[3 * p] == before[3 * p]);
                                assert(buf@[3 * p + 1] == before[3 * p + 1]);
                                assert(buf@[3 * p + 2] == before[3 * p + 2]);
                            } else {
                                assert(3 * p == before.len());
                                assert(buf@[3 * p] == rr);
                                assert(buf@[3 * p + 1] == gg);
                                assert(buf@[3 * p + 2] == bb);
                            }
                        };
                    }
                }
                x = x + 1;
            }
            proof {
                assert(3 * (w as int) * (y as int) + 3 * (w as int)
                    == 3 * (w as int) * (y as int + 1)) by (nonlinear_arith);
                assert((w as int) * (y as int) + (w as int) == (w as int) * (y as int + 1))
                    by (nonlinear_arith);
            }
            y = y + 1;
        }
        proof {
            assert(3 * ((w as int) * (h as int)) == 3 * (w as int) * (h as int))
                by (nonlinear_arith);
        }
        buf
    }
}

/// The stratified sub-pixel coordinate: the pixel index plus the jittered
/// cell offset, in fixed-point pixels.
fn pixel_coordinate(p: u32, cell: u32, n: u32) -> (r: i64)
    requires
        p < 4096,
        cell < n,
        1 <= n <= 0x200,
    ensures
        0 <= r <= crate::camera::PIXB,
{
    let jitter: i64 = random_fx_unit();
    proof {
        assert(0 <= (cell as int) * (SCALE as int)
            && (cell as int) * (SCALE as int) + 65535 < (n as int) * (SCALE as int))
            by (nonlinear_arith)
            requires
                0 <= (cell as int) < n as int,
                1 <= n as int;
        vstd::arithmetic::div_mod::lemma_div_is_ordered(
            0,
            (cell as int) * (SCALE as int) + jitter as int,
            n as int,
        );
        vstd::arithmetic::div_mod::lemma_div_is_ordered(
            (cell as int) * (SCALE as int) + jitter as int,
            (n as int) * (SCALE as int),
            n as int,
        );
        assert((n as int) * (SCALE as int) == (SCALE as int) * (n as int)) by (nonlinear_arith);
        vstd::arithmetic::div_mod::lemma_div_multiples_vanish(SCALE as int, n as int);
    }
    let offset: i64 = div_floor(
        ((cell as i128) * (SCALE as i128) + jitter as i128),
        n as i128,
    ) as i64;
    (p as i64) * SCALE + offset
}

/// Average, clamp into one unit, take the gamma square root, and quantize.
/// The tone-mapped byte of an accumulated channel: the average clamped
/// into one unit, gamma-corrected by square root, quantized to eight bits.
pub open spec fn stone_map(sum: int, count: int) -> int {
    let avg = sum / count;
    let clamped = if avg > SCALE as int {
        SCALE as int
    } else {
        avg
    };
    crate::fx::sqrt_floor(clamped * (SCALE as int)) * 255 / (SCALE as int)
}

fn tone_map(sum: i64, count: i64) -> (r: u8)
    requires
        0 <= sum,
        1 <= count <= 0x1_0000_0000,
    ensures
        r as int == stone_map(sum as int, count as int),
        sum == 0 ==> r == 0,
{
    proof {
        crate::fx::lemma_div_mag(sum as int, count as int);
        if sum == 0 {
            vstd::arithmetic::div_mod::lemma_div_basics_1(count as int);
        }
    }
    let avg: i64 = div_floor(sum as i128, count as i128) as i64;
    let clamped: i64 = if avg > SCALE {
        SCALE
    } else {
        avg
    };
    let g: i64 = fx_sqrt(clamped);
    proof {
        if clamped == 0 {
            crate::fx::lemma_sqrt_floor_unique(0, 0);
            assert(g == 0);
        }
        assert(0 <= (g as int) * 255 <= 255 * (SCALE as int)) by (nonlinear_arith)
            requires
                0 <= g as int <= SCALE as int;
        crate::fx::lemma_div_scale_bound((g as int) * 255, 255);
        vstd::arithmetic::mul::lemma_mul_nonnegative(g as int, 255);
        vstd::arithmetic::div_mod::lemma_div_pos_is_pos((g as int) * 255, SCALE as int);
    }
    proof {
        assert(0 <= (g as int) * 255 / (SCALE as int) <= 255) by {
            crate::fx::lemma_div_scale_bound((g as int) * 255, 255);
            vstd::arithmetic::div_mod::lemma_div_pos_is_pos((g as int) * 255, SCALE as int);
        };
    }
    let byte: i64 = div_floor((g as i128) * 255, SCALE as i128) as i64;
    byte as u8
}

/// Clamp a radiance vector component-wise into `[0, RAD_MAX]`.
fn clamp_radiance(v: Vec3) -> (r: Vec3)
    ensures
        radiance_ok(r),
        r.x == clamp_component(v.x as int),
        r.y == clamp_component(v.y as int),
        r.z == clamp_component(v.z as int),
{
    Vec3 {
        x: clamp_component_exec(v.x),
        y: clamp_component_exec(v.y),
        z: clamp_component_exec(v.z),
    }
}

pub open spec fn clamp_component(c: int) -> int {
    if c < 0 {
        0
    } else if c > RAD_MAX {
        RAD_MAX as int
    } else {
        c
    }
}

fn clamp_component_exec(c: i64) -> (r: i64)
    ensures
        r == clamp_component(c as int),
        0 <= r <= RAD_MAX,
{
    if c < 0 {
        0
    } else if c > RAD_MAX {
        RAD_MAX
    } else {
        c
    }
}

/// `attenuation (x) radiance` stays inside the multiplier's range.
proof fn lemma_modulate_bounds(a: Vec3, b: Vec3)
    requires
        bounded(a, CMAX as int),
        radiance_ok(b),
    ensures
        -crate::fx::FX_ARG_MAX <= a.x <= crate::fx::FX_ARG_MAX,
        -crate::fx::FX_ARG_MAX <= a.y <= crate::fx::FX_ARG_MAX,
        -crate::fx::FX_ARG_MAX <= a.z <= crate::fx::FX_ARG_MAX,
        -crate::fx::FX_ARG_MAX <= b.x <= crate::fx::FX_ARG_MAX,
        -crate::fx::FX_ARG_MAX <= b.y <= crate::fx::FX_ARG_MAX,
        -crate::fx::FX_ARG_MAX <= b.z <= crate::fx::FX_ARG_MAX,
{
}

/// A clamped radiance scaled by a non-negative density stays inside the
/// multiplier's range.
proof fn lemma_weight_bounds(g: Vec3, spdf: int)
    requires
        radiance_ok(g),
        0 <= spdf <= 0x30_0000,
    ensures
        -crate::fx::FX_ARG_MAX <= g.x <= crate::fx::FX_ARG_MAX,
        -crate::fx::FX_ARG_MAX <= g.y <= crate::fx::FX_ARG_MAX,
        -crate::fx::FX_ARG_MAX <= g.z <= crate::fx::FX_ARG_MAX,
{
}

/// `c * SCALE / density`, saturated to the radiance cap; zero density was
/// excluded by the caller.
fn weight_component(c: i64, density: i64) -> (r: i64)
    requires
        0 <= c <= RAD_MAX,
        1 <= density <= 0x8000_0000_0000,
    ensures
        0 <= r,
{
    proof {
        vstd::arithmetic::mul::lemma_mul_nonnegative(c as int, SCALE as int);
        assert((c as int) * (SCALE as int) <= 0x10_0000_0000 * (SCALE as int))
            by (nonlinear_arith)
            requires
                0 <= c as int <= 0x10_0000_0000;
        vstd::arithmetic::div_mod::lemma_div_pos_is_pos((c as int) * (SCALE as int), density as int);
    }
    let q: i128 = div_floor((c as i128) * (SCALE as i128), density as i128);
    if q > RAD_MAX as i128 {
        RAD_MAX
    } else {
        q as i64
    }
}

/// Adding one more copy of the same sample advances the uniform sum.
proof fn lemma_uniform_sum_step(m: int, cx: int, cy: int, cz: int)
    by (nonlinear_arith)
    requires
        m >= 0,
    ensures
        m * cx + cx == (m + 1) * cx,
        m * cy + cy == (m + 1) * cy,
        m * cz + cz == (m + 1) * cz,
{
}

/// The running sample sum stays inside its budget when one more clamped
/// sample is added.
proof fn lemma_sample_sum_bound(sj: int, si: int, n: int)
    by (nonlinear_arith)
    requires
        0 <= sj < n,
        0 <= si < n,
        1 <= n <= 0x200,
    ensures
        (sj * n + si) * (RAD_MAX as int) + (RAD_MAX as int) == (sj * n + si + 1) * (RAD_MAX as int),
        (sj * n + si + 1) * (RAD_MAX as int) <= 0x4_0000 * (RAD_MAX as int),
{
}

/// Finishing a row of cells advances the sum budget by one row.
proof fn lemma_row_step(sj: int, n: int)
    by (nonlinear_arith)
    requires
        0 <= sj < n,
    ensures
        sj * n + n == (sj + 1) * n,
{
}

/// The full budget of a pixel's samples fits comfortably.
proof fn lemma_pixel_total(n: int)
    by (nonlinear_arith)
    requires
        1 <= n <= 0x200,
    ensures
        1 <= n * n <= 0x4_0000,
{
}

} // verus!
