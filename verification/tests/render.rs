use raytracer::fx::SCALE;
use raytracer::material::Material;
use raytracer::ray::Ray;
use raytracer::scene::Scene;
use raytracer::shape::Shape;
use raytracer::vec3::Vec3;

fn fx_product(a: i64, b: i64) -> i64 {
    ((a as i128) * (b as i128) / (SCALE as i128)) as i64
}

fn straight_down_z(origin_z: i64) -> Ray {
    Ray {
        origin: Vec3 { x: 0, y: 0, z: origin_z },
        direction: Vec3 { x: 0, y: 0, z: -SCALE },
        time: 0,
    }
}

#[test]
fn zero_depth_renders_black_pixels() {
    let mut scene = Scene::new();
    scene.max_depth = 0;
    scene.samples = 4;
    scene.world.push(Shape::sphere(
        Vec3 { x: 0, y: 0, z: -3 * SCALE },
        SCALE,
        Material::diffuse_light(Vec3 { x: 4 * SCALE, y: 4 * SCALE, z: 4 * SCALE }),
    ));
    let c = scene.ray_color(straight_down_z(0), 0);
    assert_eq!((c.x, c.y, c.z), (0, 0, 0));
    let (r, g, b) = scene.render_pixel(0, 0);
    assert_eq!((r, g, b), (0, 0, 0));
}

#[test]
fn miss_returns_the_background() {
    let mut scene = Scene::new();
    scene.background_color = Vec3 { x: 13107, y: 26214, z: 39321 };
    let c = scene.ray_color(straight_down_z(0), 8);
    assert_eq!((c.x, c.y, c.z), (13107, 26214, 39321));
}

#[test]
fn light_emits_only_on_its_front_face() {
    let mut scene = Scene::new();
    let glow = Vec3 { x: 2 * SCALE, y: SCALE, z: SCALE / 2 };
    scene.world.push(Shape::sphere(
        Vec3 { x: 0, y: 0, z: -3 * SCALE },
        SCALE,
        Material::diffuse_light(glow),
    ));
    scene.background_color = Vec3 { x: 0, y: 0, z: 0 };
    // from outside: the front face glows
    let c = scene.ray_color(straight_down_z(0), 4);
    assert_eq!((c.x, c.y, c.z), (glow.x, glow.y, glow.z));
    // from the center: every visible face is a back face, which is dark
    let inside = scene.ray_color(straight_down_z(-3 * SCALE), 4);
    assert_eq!((inside.x, inside.y, inside.z), (0, 0, 0));
}

#[test]
fn single_bounce_diffuse_matches_albedo_times_background() {
    // a diffuse sphere lit only by a uniform background: with one bounce
    // the estimate is the albedo modulating the background, every sample
    let albedo = Vec3 { x: SCALE / 2, y: SCALE / 4, z: 3 * SCALE / 4 };
    let background = Vec3 { x: 52429, y: 39321, z: 26214 };
    let mut scene = Scene::new();
    scene.background_color = background;
    scene.world.push(Shape::sphere(
        Vec3 { x: 0, y: 0, z: -4 * SCALE },
        SCALE,
        Material::lambertian_from_vec3(albedo),
    ));
    let expected = (
        fx_product(albedo.x, background.x),
        fx_product(albedo.y, background.y),
        fx_product(albedo.z, background.z),
    );
    let n = 200;
    let mut sums = (0.0f64, 0.0f64, 0.0f64);
    for _ in 0..n {
        let c = scene.ray_color(straight_down_z(0), 2);
        sums.0 += c.x as f64;
        sums.1 += c.y as f64;
        sums.2 += c.z as f64;
    }
    let mean = (sums.0 / n as f64, sums.1 / n as f64, sums.2 / n as f64);
    let tolerance = SCALE as f64 / 64.0;
    assert!((mean.0 - expected.0 as f64).abs() < tolerance, "{:?} vs {:?}", mean, expected);
    assert!((mean.1 - expected.1 as f64).abs() < tolerance, "{:?} vs {:?}", mean, expected);
    assert!((mean.2 - expected.2 as f64).abs() < tolerance, "{:?} vs {:?}", mean, expected);
}

#[test]
fn perfect_mirror_reflects_the_background_modulated_by_albedo() {
    // a fuzz-free metal sphere facing a single-color background: the ray
    // reflects straight back and picks up the background through the albedo
    let albedo = Vec3 { x: 58982, y: 13107, z: 6554 };
    let background = Vec3 { x: 52429, y: 52429, z: 52429 };
    let mut scene = Scene::new();
    scene.background_color = background;
    scene.world.push(Shape::sphere(
        Vec3 { x: 0, y: 0, z: -4 * SCALE },
        SCALE,
        Material::metal_from_vec3(albedo, 0),
    ));
    let c = scene.ray_color(straight_down_z(0), 3);
    let expected = (
        fx_product(albedo.x, background.x),
        fx_product(albedo.y, background.y),
        fx_product(albedo.z, background.z),
    );
    // the reflection is deterministic; only fixed-point rounding is allowed
    assert!((c.x - expected.0).abs() <= 2, "{} vs {}", c.x, expected.0);
    assert!((c.y - expected.1).abs() <= 2, "{} vs {}", c.y, expected.1);
    assert!((c.z - expected.2).abs() <= 2, "{} vs {}", c.z, expected.2);
}

#[test]
fn dielectric_always_scatters() {
    let mut scene = Scene::new();
    scene.background_color = Vec3 { x: SCALE, y: SCALE, z: SCALE };
    scene.world.push(Shape::sphere(
        Vec3 { x: 0, y: 0, z: -4 * SCALE },
        SCALE,
        Material::dielectric(98304),
    ));
    // glass absorbs nothing: some background always comes through or back
    let c = scene.ray_color(straight_down_z(0), 8);
    assert!(c.x > 0 && c.y > 0 && c.z > 0, "glass returned {:?}", (c.x, c.y, c.z));
}

#[test]
fn render_buffer_has_three_bytes_per_pixel() {
    let mut scene = Scene::new();
    scene.samples = 1;
    scene.max_depth = 2;
    scene.camera = raytracer::camera::Camera::new(
        Vec3 { x: 0, y: 0, z: 0 },
        Vec3 { x: -SCALE, y: SCALE, z: -SCALE },
        Vec3 { x: 512, y: 0, z: 0 },
        Vec3 { x: 0, y: 512, z: 0 },
        Vec3 { x: 0, y: 0, z: 0 },
        Vec3 { x: 0, y: 0, z: 0 },
        false,
        8,
        8,
    );
    let buf = scene.render();
    assert_eq!(buf.len(), 3 * 8 * 8);
    // a sky-colored scene cannot render pure black everywhere
    assert!(buf.iter().any(|&b| b > 0));
}

#[test]
fn zero_depth_render_is_an_all_black_buffer() {
    let mut scene = Scene::new();
    scene.samples = 2;
    scene.max_depth = 0;
    scene.camera = raytracer::camera::Camera::new(
        Vec3 { x: 0, y: 0, z: 0 },
        Vec3 { x: -SCALE, y: SCALE, z: -SCALE },
        Vec3 { x: 512, y: 0, z: 0 },
        Vec3 { x: 0, y: 512, z: 0 },
        Vec3 { x: 0, y: 0, z: 0 },
        Vec3 { x: 0, y: 0, z: 0 },
        false,
        4,
        4,
    );
    scene.world.push(Shape::sphere(
        Vec3 { x: 0, y: 0, z: -2 * SCALE },
        SCALE,
        Material::diffuse_light(Vec3 { x: 7 * SCALE, y: 7 * SCALE, z: 7 * SCALE }),
    ));
    let buf = scene.render();
    assert_eq!(buf.len(), 3 * 4 * 4);
    assert!(buf.iter().all(|&b| b == 0));
}

#[test]
fn empty_world_renders_the_tone_mapped_background_everywhere() {
    let mut scene = Scene::new();
    scene.samples = 4;
    scene.max_depth = 4;
    scene.background_color = Vec3 { x: 16384, y: 36864, z: 65536 };
    scene.camera = raytracer::camera::Camera::new(
        Vec3 { x: 0, y: 0, z: 0 },
        Vec3 { x: -SCALE, y: SCALE, z: -SCALE },
        Vec3 { x: 512, y: 0, z: 0 },
        Vec3 { x: 0, y: 512, z: 0 },
        Vec3 { x: 0, y: 0, z: 0 },
        Vec3 { x: 0, y: 0, z: 0 },
        false,
        4,
        4,
    );
    let buf = scene.render();
    // every pixel carries the same three tone-mapped background bytes
    let first = (buf[0], buf[1], buf[2]);
    for p in 0..16 {
        assert_eq!((buf[3 * p], buf[3 * p + 1], buf[3 * p + 2]), first);
    }
    // gamma mapping of 0.25 is 0.5 of full brightness
    assert_eq!(first.0, 127);
    assert!(first.1 > first.0 && first.2 > first.1);
}

#[test]
fn importance_sampled_light_brightens_a_diffuse_scene() {
    // a diffuse floor patch under a quad light, importance sampled
    let mut scene = Scene::new();
    scene.background_color = Vec3 { x: 0, y: 0, z: 0 };
    let floor = Shape::quadrilateral(
        Vec3 { x: -4 * SCALE, y: -SCALE, z: -8 * SCALE },
        Vec3 { x: 8 * SCALE, y: 0, z: 0 },
        Vec3 { x: 0, y: 0, z: 8 * SCALE },
        Material::lambertian_from_vec3(Vec3 { x: 48059, y: 48059, z: 48059 }),
    )
    .expect("floor");
    let lamp_shape = Shape::quadrilateral(
        Vec3 { x: -SCALE, y: 3 * SCALE, z: -6 * SCALE },
        Vec3 { x: 2 * SCALE, y: 0, z: 0 },
        Vec3 { x: 0, y: 0, z: 2 * SCALE },
        Material::diffuse_light(Vec3 { x: 6 * SCALE, y: 6 * SCALE, z: 6 * SCALE }),
    )
    .expect("lamp");
    let lamp_sampler = Shape::quadrilateral(
        Vec3 { x: -SCALE, y: 3 * SCALE, z: -6 * SCALE },
        Vec3 { x: 2 * SCALE, y: 0, z: 0 },
        Vec3 { x: 0, y: 0, z: 2 * SCALE },
        Material::diffuse_light(Vec3 { x: 6 * SCALE, y: 6 * SCALE, z: 6 * SCALE }),
    )
    .expect("lamp sampler");
    scene.world.push(floor);
    scene.world.push(lamp_shape);
    scene.light = Some(lamp_sampler);
    // aim at the floor below the lamp
    let ray = Ray {
        origin: Vec3 { x: 0, y: 2 * SCALE, z: 0 },
        direction: Vec3 { x: 0, y: -46341, z: -46341 },
        time: 0,
    };
    let n = 400;
    let mut sum = 0f64;
    for _ in 0..n {
        let c = scene.ray_color(ray, 4);
        sum += c.x as f64;
    }
    let mean = sum / n as f64;
    assert!(mean > 100.0, "the lit floor stayed dark: {mean}");
}
