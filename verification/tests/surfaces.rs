use raytracer::constant_medium::ConstantMedium;
use raytracer::fx::PI_FX;
use raytracer::fx::SCALE;
use raytracer::material::Material;
use raytracer::mesh::Mesh;
use raytracer::ray::{Ray, T_MAX};
use raytracer::shape::Shape;
use raytracer::texture::Texture;
use raytracer::triangle::Triangle;
use raytracer::vec3::Vec3;

fn color(x: i64, y: i64, z: i64) -> Vec3 {
    Vec3 { x, y, z }
}

#[test]
fn solid_color_ignores_the_lookup() {
    let tex = Texture::solid_color(color(100, 200, 300));
    let a = tex.get_color_value(0, 0, color(0, 0, 0));
    let b = tex.get_color_value(SCALE / 2, SCALE / 3, color(SCALE, -SCALE, 7));
    assert_eq!((a.x, a.y, a.z), (100, 200, 300));
    assert_eq!((b.x, b.y, b.z), (100, 200, 300));
}

#[test]
fn checkers_alternate_by_cell() {
    let even = color(SCALE, 0, 0);
    let odd = color(0, SCALE, 0);
    // cells one unit wide
    let tex = Texture::checkers_from_vec3(even, odd, SCALE);
    let a = tex.get_color_value(0, 0, color(SCALE / 2, SCALE / 2, SCALE / 2));
    let b = tex.get_color_value(0, 0, color(3 * SCALE / 2, SCALE / 2, SCALE / 2));
    assert_ne!((a.x, a.y, a.z), (b.x, b.y, b.z));
    // three cells over flips three times: back to the other color
    let c = tex.get_color_value(0, 0, color(SCALE / 2 + 2 * SCALE, SCALE / 2, SCALE / 2));
    assert_eq!((a.x, a.y, a.z), (c.x, c.y, c.z));
}

#[test]
fn image_texture_looks_up_texels() {
    // a 2 x 2 raster: red, green / blue, white
    let pixels = vec![
        color(SCALE, 0, 0),
        color(0, SCALE, 0),
        color(0, 0, SCALE),
        color(SCALE, SCALE, SCALE),
    ];
    let tex = Texture::image_tex(pixels, 2, 2);
    let tl = tex.get_color_value(0, 0, color(0, 0, 0));
    assert_eq!((tl.x, tl.y, tl.z), (SCALE, 0, 0));
    let tr = tex.get_color_value(SCALE / 2, 0, color(0, 0, 0));
    assert_eq!((tr.x, tr.y, tr.z), (0, SCALE, 0));
    let bl = tex.get_color_value(0, SCALE / 2, color(0, 0, 0));
    assert_eq!((bl.x, bl.y, bl.z), (0, 0, SCALE));
    // coordinates wrap toroidally
    let wrapped = tex.get_color_value(SCALE, SCALE, color(0, 0, 0));
    assert_eq!((wrapped.x, wrapped.y, wrapped.z), (SCALE, 0, 0));
}

#[test]
fn metal_clamps_its_fuzz() {
    let m = Material::metal_from_vec3(color(SCALE, SCALE, SCALE), 5 * SCALE);
    match m {
        Material::Metal(metal) => assert_eq!(metal.fuzz, SCALE),
        _ => panic!("expected a metal"),
    }
}

#[test]
fn scattering_densities_by_material() {
    // build records through real hits so they are well-formed
    let sphere = raytracer::sphere::Sphere::new(
        color(0, 0, -4 * SCALE),
        SCALE,
        Material::lambertian_from_vec3(color(SCALE / 2, SCALE / 2, SCALE / 2)),
    );
    let ray = Ray {
        origin: color(0, 0, 0),
        direction: color(0, 0, -SCALE),
        time: 0,
    };
    let hit = sphere.hits(&ray, 0, T_MAX).expect("hit");
    let straight_back = Ray {
        origin: hit.hit_point,
        direction: color(0, 0, SCALE),
        time: 0,
    };
    let lambertian = Material::lambertian_from_vec3(color(SCALE / 2, SCALE / 2, SCALE / 2));
    let d = lambertian.scattering_pdf(&ray, &hit, &straight_back);
    // cos = 1 against the outward normal: density is 1 / pi
    let expected = (SCALE as i128 * SCALE as i128 / PI_FX as i128) as i64;
    assert!((d - expected).abs() <= 1, "{d} vs {expected}");
    let iso = Material::isotropic_from_vec3(color(SCALE, SCALE, SCALE));
    let di = iso.scattering_pdf(&ray, &hit, &straight_back);
    let expected_iso = (SCALE as i128 * SCALE as i128 / (4 * PI_FX as i128)) as i64;
    assert_eq!(di, expected_iso);
    let metal = Material::metal_from_vec3(color(SCALE, SCALE, SCALE), 0);
    assert_eq!(metal.scattering_pdf(&ray, &hit, &straight_back), 0);
}

fn box_mesh() -> Vec<Triangle> {
    // two triangles closing a thin slab around z in [-3, -2], x,y in [-2, 2]
    let a = color(-2 * SCALE, -2 * SCALE, -2 * SCALE);
    let b = color(2 * SCALE, -2 * SCALE, -2 * SCALE);
    let c = color(0, 2 * SCALE, -2 * SCALE);
    let a2 = color(-2 * SCALE, -2 * SCALE, -3 * SCALE);
    let b2 = color(2 * SCALE, -2 * SCALE, -3 * SCALE);
    let c2 = color(0, 2 * SCALE, -3 * SCALE);
    vec![
        Triangle::new(a, b, c),
        Triangle::new(a2, c2, b2),
    ]
}

#[test]
fn constant_medium_scatters_inside_its_boundary() {
    let boundary = Mesh::new(
        box_mesh(),
        Material::lambertian_from_vec3(color(SCALE / 2, SCALE / 2, SCALE / 2)),
    );
    // a very dense medium: almost every ray scatters within the slab
    let medium = ConstantMedium::new(boundary, 64 * SCALE, color(SCALE, SCALE, SCALE));
    let ray = Ray {
        origin: color(0, 0, 0),
        direction: color(0, 0, -SCALE),
        time: 0,
    };
    let mut scattered = 0;
    for _ in 0..64 {
        if let Some(h) = medium.hits(&ray, 0, T_MAX) {
            assert!(h.t >= 2 * SCALE - 16, "scatter before the slab: {}", h.t);
            assert!(h.t <= 3 * SCALE + 16, "scatter past the slab: {}", h.t);
            scattered += 1;
        }
    }
    assert!(scattered > 32, "dense smoke let most rays through: {scattered}");
}

#[test]
fn shape_list_returns_the_nearest_member_hit() {
    let near = Shape::sphere(
        color(0, 0, -3 * SCALE),
        SCALE,
        Material::lambertian_from_vec3(color(SCALE / 2, SCALE / 2, SCALE / 2)),
    );
    let far = Shape::sphere(
        color(0, 0, -8 * SCALE),
        SCALE,
        Material::lambertian_from_vec3(color(SCALE / 2, SCALE / 2, SCALE / 2)),
    );
    let list = Shape::list(vec![far, near]);
    let ray = Ray {
        origin: color(0, 0, 0),
        direction: color(0, 0, -SCALE),
        time: 0,
    };
    let h = list.hits(&ray, 0, T_MAX).expect("list hit");
    assert_eq!(h.t, 2 * SCALE);
}

#[test]
fn perlin_noise_stays_banded() {
    let tex = Texture::perlin(4 * SCALE);
    for i in 0..32 {
        let p = color(i * 3000, 7000 - i * 500, i * i * 100);
        let c = tex.get_color_value(0, 0, p);
        assert_eq!(c.x, c.y);
        assert_eq!(c.y, c.z);
        assert!(0 <= c.x && c.x <= SCALE, "band value out of range: {}", c.x);
    }
}

#[test]
fn perlin_noise_is_deterministic_per_instance() {
    let per = raytracer::perlin::Perlin::new(SCALE);
    let p = color(12345, 54321, 22222);
    assert_eq!(per.get_noise(p), per.get_noise(p));
    assert_eq!(per.turbulence(p, 7), per.turbulence(p, 7));
}

#[test]
fn camera_shoots_through_the_viewport() {
    let cam = raytracer::camera::Camera::new(
        color(0, 0, 0),
        color(-SCALE, SCALE, -SCALE),
        Vec3 { x: 512, y: 0, z: 0 },
        Vec3 { x: 0, y: 512, z: 0 },
        color(0, 0, 0),
        color(0, 0, 0),
        false,
        256,
        256,
    );
    // the middle of the viewport lies straight ahead
    let r = cam.get_ray(128 * SCALE, 128 * SCALE);
    assert_eq!((r.origin.x, r.origin.y, r.origin.z), (0, 0, 0));
    assert_eq!((r.direction.x, r.direction.y), (0, 0));
    assert!(r.direction.z < 0);
    assert!(0 <= r.time && r.time < SCALE);
}
