//! Procedural noise: gradient vectors hashed by three shuffled permutation
//! tables, blended trilinearly, summed in halved octaves, and fed through a
//! fixed-point sine for the marble-like bands.

use vstd::prelude::*;
use crate::fx::{div_floor, fx_mul, mod_floor, fxm, SCALE, PI_FX};
use crate::util::{rand_below, random_unit_vector};
use crate::vec3::{Vec3, bounded, sdot, tdot, vtup};

verus! {

/// Bound on a single octave's contribution.
pub const NOISE_MAX: i64 = 0x80_0000;

/// Bound on the lattice coordinates noise is evaluated at.
pub const LATTICE_MAX: i64 = 0x4000_0000;

#[derive(Debug)]
pub struct Perlin {
    pub scale: i64,
    pub random_vecs: Vec<Vec3>,
    pub perm_x: Vec<u8>,
    pub perm_y: Vec<u8>,
    pub perm_z: Vec<u8>,
}

pub open spec fn perlin_wf(p: Perlin) -> bool {
    &&& 0 < p.scale <= 0x100_0000
    &&& p.random_vecs.len() == 256
    &&& (forall|i: int| 0 <= i < 256 ==> bounded(#[trigger] p.random_vecs[i], SCALE as int))
    &&& p.perm_x.len() == 256
    &&& p.perm_y.len() == 256
    &&& p.perm_z.len() == 256
}

/// The gradient at a lattice corner: the tables hash the three coordinates
/// into one of the random unit vectors.
pub open spec fn corner_gradient(p: Perlin, i: int, j: int, k: int) -> Vec3 {
    p.random_vecs[(p.perm_x[i % 256] ^ p.perm_y[j % 256] ^ p.perm_z[k % 256]) as int]
}

/// The smooth blending weight for a cell offset in `[0, 1)` of a unit.
pub open spec fn sblend(u: int) -> int {
    fxm(fxm(u, u), 3 * (SCALE as int) - 2 * u)
}

/// Clamp a contribution into the single-octave bound.
pub open spec fn snoise_clip(c: int) -> int {
    if c > NOISE_MAX as int {
        NOISE_MAX as int
    } else if c < -(NOISE_MAX as int) {
        -(NOISE_MAX as int)
    } else {
        c
    }
}

/// One corner's contribution: the blend weights of the three axes times
/// the gradient dotted with the offset from the corner.
pub open spec fn scorner(
    p: Perlin,
    i: int,
    j: int,
    k: int,
    di: int,
    dj: int,
    dk: int,
    u: int,
    v: int,
    w: int,
) -> int {
    let g = corner_gradient(p, i + di, j + dj, k + dk);
    let f1 = if di == 1 {
        sblend(u)
    } else {
        (SCALE as int) - sblend(u)
    };
    let f2 = if dj == 1 {
        sblend(v)
    } else {
        (SCALE as int) - sblend(v)
    };
    let f3 = if dk == 1 {
        sblend(w)
    } else {
        (SCALE as int) - sblend(w)
    };
    let gd = tdot(vtup(g), (u - di * (SCALE as int), v - dj * (SCALE as int), w - dk * (
    SCALE as int))) / (SCALE as int);
    snoise_clip(fxm(fxm(fxm(f1, f2), f3), gd))
}

/// The trilinear noise value at a point.
pub open spec fn snoise(p: Perlin, pt: Vec3) -> int {
    let i = pt.x as int / (SCALE as int);
    let j = pt.y as int / (SCALE as int);
    let k = pt.z as int / (SCALE as int);
    let u = pt.x as int % (SCALE as int);
    let v = pt.y as int % (SCALE as int);
    let w = pt.z as int % (SCALE as int);
    scorner(p, i, j, k, 0, 0, 0, u, v, w) + scorner(p, i, j, k, 0, 0, 1, u, v, w) + scorner(
        p, i, j, k, 0, 1, 0, u, v, w) + scorner(p, i, j, k, 0, 1, 1, u, v, w) + scorner(
        p, i, j, k, 1, 0, 0, u, v, w) + scorner(p, i, j, k, 1, 0, 1, u, v, w) + scorner(
        p, i, j, k, 1, 1, 0, u, v, w) + scorner(p, i, j, k, 1, 1, 1, u, v, w)
}

/// Clamp one coordinate into the lattice range.
pub open spec fn slattice_clip(c: int) -> int {
    if c > LATTICE_MAX as int {
        LATTICE_MAX as int
    } else if c < -(LATTICE_MAX as int) {
        -(LATTICE_MAX as int)
    } else {
        c
    }
}

/// Octave summation: each level adds the noise at the (clamped) doubled
/// point at half the weight.
pub open spec fn sturbulence(p: Perlin, pt: Vec3, depth: int) -> int
    decreases depth,
{
    if depth <= 0 {
        0
    } else {
        let doubled = Vec3 {
            x: slattice_clip(2 * pt.x as int) as i64,
            y: slattice_clip(2 * pt.y as int) as i64,
            z: slattice_clip(2 * pt.z as int) as i64,
        };
        snoise(p, pt) + sturbulence(p, doubled, depth - 1) / 2
    }
}

/// The fixed-point sine: the argument reduced into one turn, a parabolic
/// arch per half-turn, clamped into one unit.
pub open spec fn ssin(x: int) -> int {
    let r = x % (2 * PI_FX as int);
    let theta = if r >= PI_FX as int {
        r - PI_FX as int
    } else {
        r
    };
    let arch = 4 * fxm(theta, (PI_FX as int) - theta) * (SCALE as int) / fxm(
        PI_FX as int,
        PI_FX as int,
    );
    let clipped = if arch > SCALE as int {
        SCALE as int
    } else if arch < 0 {
        0
    } else {
        arch
    };
    if r >= PI_FX as int {
        -clipped
    } else {
        clipped
    }
}

impl Perlin {
    /// Fresh noise: gradients drawn from the unit sphere and three freshly
    /// shuffled permutation tables. `scale` stretches the bands.
    pub fn new(scale: i64) -> (r: Perlin)
        requires
            0 < scale <= 0x100_0000,
        ensures
            perlin_wf(r),
            r.scale == scale,
    {
        let mut random_vecs: Vec<Vec3> = Vec::new();
        let mut i: usize = 0;
        while i < 256
            invariant
                random_vecs.len() == i,
                i <= 256,
                forall|j: int| 0 <= j < i ==> bounded(#[trigger] random_vecs[j], SCALE as int),
            decreases 256 - i,
        {
            random_vecs.push(random_unit_vector());
            i = i + 1;
        }
        let perm_x: Vec<u8> = shuffled_table();
        let perm_y: Vec<u8> = shuffled_table();
        let perm_z: Vec<u8> = shuffled_table();
        Perlin { scale, random_vecs, perm_x, perm_y, perm_z }
    }

    /// The trilinearly blended gradient noise at a point.
    pub fn get_noise(&self, hit_point: Vec3) -> (r: i64)
        requires
            perlin_wf(*self),
            bounded(hit_point, LATTICE_MAX as int),
        ensures
            r == snoise(*self, hit_point),
            -8 * NOISE_MAX <= r <= 8 * NOISE_MAX,
    {
        let i: i64 = div_floor(hit_point.x as i128, SCALE as i128) as i64;
        let j: i64 = div_floor(hit_point.y as i128, SCALE as i128) as i64;
        let k: i64 = div_floor(hit_point.z as i128, SCALE as i128) as i64;
        proof {
            crate::fx::lemma_div_mag(hit_point.x as int, SCALE as int);
            crate::fx::lemma_div_mag(hit_point.y as int, SCALE as int);
            crate::fx::lemma_div_mag(hit_point.z as int, SCALE as int);
        }
        let u: i64 = mod_floor(hit_point.x, SCALE);
        let v: i64 = mod_floor(hit_point.y, SCALE);
        let w: i64 = mod_floor(hit_point.z, SCALE);
        let c000: i64 = self.corner(i, j, k, 0, 0, 0, u, v, w);
        let c001: i64 = self.corner(i, j, k, 0, 0, 1, u, v, w);
        let c010: i64 = self.corner(i, j, k, 0, 1, 0, u, v, w);
        let c011: i64 = self.corner(i, j, k, 0, 1, 1, u, v, w);
        let c100: i64 = self.corner(i, j, k, 1, 0, 0, u, v, w);
        let c101: i64 = self.corner(i, j, k, 1, 0, 1, u, v, w);
        let c110: i64 = self.corner(i, j, k, 1, 1, 0, u, v, w);
        let c111: i64 = self.corner(i, j, k, 1, 1, 1, u, v, w);
        c000 + c001 + c010 + c011 + c100 + c101 + c110 + c111
    }

    /// One corner's clamped contribution.
    fn corner(&self, i: i64, j: i64, k: i64, di: i64, dj: i64, dk: i64, u: i64, v: i64, w: i64)
        -> (r: i64)
        requires
            perlin_wf(*self),
            -2 * LATTICE_MAX <= i <= 2 * LATTICE_MAX,
            -2 * LATTICE_MAX <= j <= 2 * LATTICE_MAX,
            -2 * LATTICE_MAX <= k <= 2 * LATTICE_MAX,
            di == 0 || di == 1,
            dj == 0 || dj == 1,
            dk == 0 || dk == 1,
            0 <= u < SCALE,
            0 <= v < SCALE,
            0 <= w < SCALE,
        ensures
            r == scorner(
                *self, i as int, j as int, k as int, di as int, dj as int, dk as int,
                u as int, v as int, w as int,
            ),
            -NOISE_MAX <= r <= NOISE_MAX,
    {
        let ix: usize = mod_floor(i + di, 256) as usize;
        let jy: usize = mod_floor(j + dj, 256) as usize;
        let kz: usize = mod_floor(k + dk, 256) as usize;
        let h: u8 = self.perm_x[ix] ^ self.perm_y[jy] ^ self.perm_z[kz];
        let g: Vec3 = self.random_vecs[h as usize];
        let f1: i64 = factor(u, di);
        let f2: i64 = factor(v, dj);
        let f3: i64 = factor(w, dk);
        let off: Vec3 = Vec3 { x: u - di * SCALE, y: v - dj * SCALE, z: w - dk * SCALE };
        let d: i64 = g.dot(off);
        proof {
            assert(-0x3_0000_0000 <= sdot(g, off) <= 0x3_0000_0000) by (nonlinear_arith)
                requires
                    bounded(g, SCALE as int),
                    bounded(off, SCALE as int);
            crate::fx::lemma_div_mag(d as int, SCALE as int);
            crate::fx::lemma_div_scale_bound(d as int, 0x3_0000);
        }
        let gd: i64 = div_floor(d as i128, SCALE as i128) as i64;
        proof {
            assert(-0x9_0000 * (SCALE as int) <= f1 as int * f2 as int
                <= 0x9_0000 * (SCALE as int)) by (nonlinear_arith)
                requires
                    -0x3_0000 <= f1 as int <= 0x3_0000,
                    -0x3_0000 <= f2 as int <= 0x3_0000;
            crate::fx::lemma_div_scale_bound(f1 as int * f2 as int, 0x9_0000);
        }
        let f12: i64 = fx_mul(f1, f2);
        proof {
            assert(-0x1B_0000 * (SCALE as int) <= f12 as int * f3 as int
                <= 0x1B_0000 * (SCALE as int)) by (nonlinear_arith)
                requires
                    -0x9_0000 <= f12 as int <= 0x9_0000,
                    -0x3_0000 <= f3 as int <= 0x3_0000;
            crate::fx::lemma_div_scale_bound(f12 as int * f3 as int, 0x1B_0000);
        }
        let f123: i64 = fx_mul(f12, f3);
        proof {
            assert(-0x51_0000 * (SCALE as int) <= f123 as int * gd as int
                <= 0x51_0000 * (SCALE as int)) by (nonlinear_arith)
                requires
                    -0x1B_0000 <= f123 as int <= 0x1B_0000,
                    -0x3_0000 <= gd as int <= 0x3_0000;
            crate::fx::lemma_div_scale_bound(f123 as int * gd as int, 0x51_0000);
        }
        let c: i64 = fx_mul(f123, gd);
        if c > NOISE_MAX {
            NOISE_MAX
        } else if c < -NOISE_MAX {
            -NOISE_MAX
        } else {
            c
        }
    }

    /// Octaves of noise at doubling frequency and halving weight; the
    /// result is the magnitude of the signed sum.
    pub fn turbulence(&self, hit_point: Vec3, depth: u32) -> (r: i64)
        requires
            perlin_wf(*self),
            bounded(hit_point, LATTICE_MAX as int),
            depth <= 16,
        ensures
            r == sturbulence(*self, hit_point, depth as int),
            -16 * 8 * NOISE_MAX <= r <= 16 * 8 * NOISE_MAX,
        decreases depth,
    {
        if depth == 0 {
            return 0;
        }
        let n: i64 = self.get_noise(hit_point);
        let doubled: Vec3 = Vec3 {
            x: lattice_clip(2 * hit_point.x),
            y: lattice_clip(2 * hit_point.y),
            z: lattice_clip(2 * hit_point.z),
        };
        let rest: i64 = self.turbulence(doubled, depth - 1);
        proof {
            crate::fx::lemma_div_mag(rest as int, 2);
        }
        let half: i64 = halve(rest);
        n + half
    }

    /// The banded color value: the sine of the scaled depth plus amplified
    /// turbulence, lifted into `[0, 1]` of a unit, equal in all channels.
    pub fn get_color_value(&self, hit_point: Vec3) -> (r: Vec3)
        requires
            perlin_wf(*self),
            bounded(hit_point, crate::ray::PB as int),
        ensures
            r.x == sperlin_color(*self, hit_point),
            r.x == r.y && r.y == r.z,
            0 <= r.x <= SCALE,
    {
        let p: Vec3 = Vec3 {
            x: lattice_clip(hit_point.x),
            y: lattice_clip(hit_point.y),
            z: lattice_clip(hit_point.z),
        };
        let turb: i64 = self.turbulence(p, 7);
        proof {
            assert(-0x40_0000_0000 * (SCALE as int) <= self.scale as int * p.z as int
                <= 0x40_0000_0000 * (SCALE as int)) by (nonlinear_arith)
                requires
                    0 < self.scale as int <= 0x100_0000,
                    -(LATTICE_MAX as int) <= p.z as int <= LATTICE_MAX as int;
            crate::fx::lemma_div_scale_bound(self.scale as int * p.z as int, 0x40_0000_0000);
        }
        let banded: i64 = fx_mul(self.scale, p.z);
        let arg: i64 = banded + 10 * turb;
        let s: i64 = fx_sin(arg);
        let lifted: i64 = (((s + SCALE) as u64) / 2) as i64;
        let c: i64 = if lifted < 0 {
            0
        } else if lifted > SCALE {
            SCALE
        } else {
            lifted
        };
        Vec3 { x: c, y: c, z: c }
    }
}

/// The banded channel value at a point, as a mathematical function.
pub open spec fn sperlin_color(per: Perlin, hit_point: Vec3) -> int {
    let q = Vec3 {
        x: slattice_clip(hit_point.x as int) as i64,
        y: slattice_clip(hit_point.y as int) as i64,
        z: slattice_clip(hit_point.z as int) as i64,
    };
    let turb = sturbulence(per, q, 7);
    let s = ssin(fxm(per.scale as int, q.z as int) + 10 * turb);
    let lifted = (s + SCALE as int) / 2;
    if lifted < 0 {
        0
    } else if lifted > SCALE as int {
        SCALE as int
    } else {
        lifted
    }
}

/// A shuffled table of the byte values.
fn shuffled_table() -> (r: Vec<u8>)
    ensures
        r.len() == 256,
{
    let mut t: Vec<u8> = Vec::new();
    let mut i: usize = 0;
    while i < 256
        invariant
            t.len() == i,
            i <= 256,
        decreases 256 - i,
    {
        t.push(i as u8);
        i = i + 1;
    }
    let mut k: usize = 255;
    while k > 0
        invariant
            t.len() == 256,
            k <= 255,
        decreases k,
    {
        let j: usize = rand_below((k + 1) as u64) as usize;
        let a: u8 = t[k];
        let b: u8 = t[j];
        t.set(k, b);
        t.set(j, a);
        k = k - 1;
    }
    t
}

/// The axis blend factor: the smooth weight toward the far corner, its
/// complement toward the near one.
fn factor(u: i64, d: i64) -> (r: i64)
    requires
        0 <= u < SCALE,
        d == 0 || d == 1,
    ensures
        d == 1 ==> r == sblend(u as int),
        d == 0 ==> r == (SCALE as int) - sblend(u as int),
        -0x3_0000 <= r <= 0x3_0000,
{
    proof {
        assert(0 <= (u as int) * (u as int) <= SCALE as int * (SCALE as int)) by (nonlinear_arith)
            requires
                0 <= (u as int) < SCALE as int;
        crate::fx::lemma_div_scale_bound((u as int) * (u as int), SCALE as int);
        vstd::arithmetic::div_mod::lemma_div_pos_is_pos((u as int) * (u as int), SCALE as int);
    }
    let uu: i64 = fx_mul(u, u);
    proof {
        assert(-0x3_0000 * (SCALE as int) <= uu as int * (3 * SCALE as int - 2 * u as int)
            <= 0x3_0000 * (SCALE as int)) by (nonlinear_arith)
            requires
                0 <= uu as int <= SCALE as int,
                0 <= (u as int) < SCALE as int;
        crate::fx::lemma_div_scale_bound(uu as int * (3 * SCALE as int - 2 * u as int), 0x3_0000);
    }
    let blend: i64 = fx_mul(uu, 3 * SCALE - 2 * u);
    if d == 1 {
        blend
    } else {
        SCALE - blend
    }
}

/// Clamp a coordinate into the lattice range.
fn lattice_clip(c: i64) -> (r: i64)
    requires
        -0x4000_0000_0000_0000 <= c <= 0x4000_0000_0000_0000,
    ensures
        r == slattice_clip(c as int),
        -LATTICE_MAX <= r <= LATTICE_MAX,
{
    if c > LATTICE_MAX {
        LATTICE_MAX
    } else if c < -LATTICE_MAX {
        -LATTICE_MAX
    } else {
        c
    }
}

/// Halve a signed accumulator, rounding toward minus infinity.
fn halve(v: i64) -> (r: i64)
    requires
        -0x1_0000_0000 <= v <= 0x1_0000_0000,
    ensures
        r == v as int / 2,
{
    proof {
        crate::fx::lemma_div_mag(v as int, 2);
    }
    div_floor(v as i128, 2) as i64
}

/// The fixed-point sine.
fn fx_sin(x: i64) -> (r: i64)
    requires
        -0x1000_0000_0000_0000 <= x <= 0x1000_0000_0000_0000,
    ensures
        r == ssin(x as int),
        -SCALE <= r <= SCALE,
{
    let m: i64 = mod_floor(x, 2 * PI_FX);
    let (theta, negative): (i64, bool) = if m >= PI_FX {
        (m - PI_FX, true)
    } else {
        (m, false)
    };
    proof {
        assert(0 <= theta as int * ((PI_FX as int) - theta as int)
            <= (PI_FX as int) * (PI_FX as int)) by (nonlinear_arith)
            requires
                0 <= (theta as int) < PI_FX as int;
        crate::fx::lemma_div_scale_bound(
            theta as int * ((PI_FX as int) - theta as int),
            4 * PI_FX as int,
        );
        assert(0 <= (PI_FX as int) * (PI_FX as int)) by (nonlinear_arith);
        crate::fx::lemma_div_scale_bound((PI_FX as int) * (PI_FX as int), 4 * PI_FX as int);
        vstd::arithmetic::div_mod::lemma_div_pos_is_pos(
            theta as int * ((PI_FX as int) - theta as int),
            SCALE as int,
        );
        vstd::arithmetic::div_mod::lemma_div_pos_is_pos(
            (PI_FX as int) * (PI_FX as int),
            SCALE as int,
        );
    }
    let arch_num: i64 = fx_mul(theta, PI_FX - theta);
    let pi_sq: i64 = fx_mul(PI_FX, PI_FX);
    proof {
        vstd::arithmetic::mul::lemma_mul_nonnegative(4 * arch_num as int, SCALE as int);
        crate::fx::lemma_div_mag(4 * arch_num as int * SCALE as int, pi_sq as int);
        assert(pi_sq as int >= 1) by {
            assert((PI_FX as int) * (PI_FX as int) >= SCALE as int) by (nonlinear_arith);
            vstd::arithmetic::div_mod::lemma_div_is_ordered(
                SCALE as int,
                (PI_FX as int) * (PI_FX as int),
                SCALE as int,
            );
            assert((SCALE as int) / (SCALE as int) == 1) by {
                vstd::arithmetic::div_mod::lemma_div_basics(SCALE as int);
            };
        };
        assert(4 * (arch_num as int) * (SCALE as int) == (4 * arch_num as int) * (SCALE as int));
    }
    let arch: i64 = div_floor(4 * (arch_num as i128) * (SCALE as i128), pi_sq as i128) as i64;
    let clipped: i64 = if arch > SCALE {
        SCALE
    } else if arch < 0 {
        0
    } else {
        arch
    };
    if negative {
        -clipped
    } else {
        clipped
    }
}

} // verus!
