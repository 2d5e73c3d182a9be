use raytracer::fx::{SCALE, PI_FX};
use raytracer::material::Material;
use raytracer::pdf::PDF;
use raytracer::ray::{Ray, T_MAX};
use raytracer::shape::Shape;
use raytracer::util::{random_unit_vector, random_cosine_direction, random_on_hemisphere};
use raytracer::vec3::Vec3;

fn up() -> Vec3 {
    Vec3 { x: 0, y: 0, z: SCALE }
}

#[test]
fn cosine_pdf_is_unbiased_for_its_own_density() {
    // drawing from the cosine density and averaging density / density must
    // give exactly one for every sample whose cosine is positive, so the
    // estimator over many draws converges to one
    let pdf = PDF::cosine(&up());
    let n = 2000;
    let mut total = 0.0f64;
    let mut used = 0;
    for _ in 0..n {
        let d = pdf.generate();
        let density = pdf.value(&d);
        if density > 0 {
            // the integrand is the cosine lobe itself
            let f = density as f64;
            total += f / density as f64;
            used += 1;
        }
    }
    assert!(used > n / 2, "most cosine samples must face up: {used}");
    let mean = total / used as f64;
    assert!((mean - 1.0).abs() < 1e-9, "estimator mean was {mean}");
}

#[test]
fn cosine_density_formula() {
    let pdf = PDF::cosine(&up());
    // straight up: cos = 1, density = 1 / pi
    let d = pdf.value(&up());
    let expected = (SCALE as f64) * (SCALE as f64) / (PI_FX as f64);
    assert!((d as f64 - expected).abs() <= 1.0, "density {d} vs {expected}");
    // sideways and below: zero
    assert_eq!(pdf.value(&Vec3 { x: 0, y: 0, z: -SCALE }), 0);
}

#[test]
fn sphere_density_is_uniform() {
    let pdf = PDF::sphere();
    let expected = (SCALE as f64) * (SCALE as f64) / (4.0 * PI_FX as f64);
    for _ in 0..16 {
        let d = random_unit_vector();
        let v = pdf.value(&d);
        assert!((v as f64 - expected).abs() <= 1.0);
    }
}

#[test]
fn mixture_density_is_the_even_blend() {
    let a = PDF::cosine(&up());
    let b = PDF::sphere();
    let va = a.value(&up());
    let vb = b.value(&up());
    let m = PDF::mixture(a, b);
    assert_eq!(m.value(&up()), (va + vb) / 2);
}

#[test]
fn mixture_density_integrates_to_one() {
    // numeric integration over the sphere by uniform direction sampling:
    // when both parts integrate to one, so does the even blend
    let m = PDF::mixture(PDF::cosine(&up()), PDF::sphere());
    let n = 40000;
    let mut sum = 0.0f64;
    for _ in 0..n {
        let d = random_unit_vector();
        sum += m.value(&d) as f64 / (SCALE as f64);
    }
    let four_pi = 4.0 * std::f64::consts::PI;
    let integral = four_pi * sum / n as f64;
    assert!(
        (integral - 1.0).abs() < 0.08,
        "mixture density integrated to {integral}"
    );
}

#[test]
fn hemisphere_samples_respect_the_normal() {
    let n = up();
    for _ in 0..64 {
        let d = random_on_hemisphere(&n);
        assert!(d.z >= 0, "sample dipped below the surface: {}", d.z);
    }
}

#[test]
fn cosine_direction_faces_up() {
    for _ in 0..64 {
        let d = random_cosine_direction();
        assert!(d.z >= 0);
        assert!(d.x.abs() <= SCALE && d.y.abs() <= SCALE && d.z <= SCALE);
    }
}

#[test]
fn sphere_cone_samples_match_the_reported_solid_angle() {
    // drawing toward a sphere is uniform over its cone of directions: the
    // mean cosine of the angle to the center axis is the midpoint of
    // [cos_max, 1], and nearly every drawn ray strikes the sphere
    let center = Vec3 { x: 0, y: 0, z: -4 * SCALE };
    let gray = Material::lambertian_from_vec3(Vec3 { x: SCALE / 2, y: SCALE / 2, z: SCALE / 2 });
    let sphere = Shape::sphere(center, SCALE, gray);
    let origin = Vec3 { x: 0, y: 0, z: 0 };
    let n = 4000;
    let mut hits = 0;
    let mut cos_sum = 0.0f64;
    for _ in 0..n {
        let d = sphere.random(&origin);
        let len = ((d.x as f64).powi(2) + (d.y as f64).powi(2) + (d.z as f64).powi(2)).sqrt();
        cos_sum += -(d.z as f64) / len;
        let ray = Ray { origin, direction: d, time: 0 };
        if sphere.hits(&ray, 0, T_MAX).is_some() {
            hits += 1;
        }
    }
    let mean = cos_sum / n as f64;
    let cos_max = (15.0f64 / 16.0).sqrt();
    let expected = (1.0 + cos_max) / 2.0;
    assert!((mean - expected).abs() < 0.005, "mean cone cosine {mean} vs {expected}");
    assert!(hits * 100 > n * 95, "only {hits} of {n} drawn rays hit the sphere");
}
