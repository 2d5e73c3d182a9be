use raytracer::fx::SCALE;
use raytracer::material::Material;
use raytracer::ray::{Ray, T_MAX};
use raytracer::shape::Shape;
use raytracer::sphere::Sphere;
use raytracer::plane::Plane;
use raytracer::quadrilateral::Quadrilateral;
use raytracer::triangle::Triangle;
use raytracer::vec3::Vec3;

fn v(x: i64, y: i64, z: i64) -> Vec3 {
    Vec3 { x: x * SCALE, y: y * SCALE, z: z * SCALE }
}

fn gray() -> Material {
    Material::lambertian_from_vec3(Vec3 { x: SCALE / 2, y: SCALE / 2, z: SCALE / 2 })
}

fn down_z_ray(origin: Vec3) -> Ray {
    Ray { origin, direction: Vec3 { x: 0, y: 0, z: -SCALE }, time: 0 }
}

#[test]
fn vec3_arithmetic() {
    let a = v(1, 2, 3);
    let b = v(4, 5, 6);
    let s = a.add(b);
    assert_eq!((s.x, s.y, s.z), (5 * SCALE, 7 * SCALE, 9 * SCALE));
    let d = b.sub(a);
    assert_eq!((d.x, d.y, d.z), (3 * SCALE, 3 * SCALE, 3 * SCALE));
    // dot carries two fixed-point factors
    assert_eq!(a.dot(b), (4 + 10 + 18) * SCALE * SCALE);
    let c = v(1, 0, 0).cross(v(0, 1, 0));
    assert_eq!((c.x, c.y, c.z), (0, 0, SCALE * SCALE));
    let n = v(3, 0, 0).normalize();
    assert_eq!((n.x, n.y, n.z), (SCALE, 0, 0));
    assert_eq!(v(0, 3, 4).length(), 5 * SCALE);
}

#[test]
fn ray_walks_its_direction() {
    let r = down_z_ray(v(0, 0, 5));
    let p = r.at(2 * SCALE);
    assert_eq!((p.x, p.y, p.z), (0, 0, 3 * SCALE));
}

#[test]
fn sphere_hit_through_center_front_and_back() {
    // a unit sphere four units down the axis: front rim at t = 3, back at 5
    let s = Sphere::new(v(0, 0, -4), SCALE, gray());
    let r = down_z_ray(v(0, 0, 0));
    let front = s.hits(&r, 0, T_MAX).expect("front hit");
    assert_eq!(front.t, 3 * SCALE);
    assert!(front.front_face);
    assert_eq!((front.normal.x, front.normal.y, front.normal.z), (0, 0, SCALE));
    let back = s.hits(&r, 3 * SCALE + 1, T_MAX).expect("back hit");
    assert_eq!(back.t, 5 * SCALE);
    assert!(s.hits(&r, 6 * SCALE, T_MAX).is_none());
}

#[test]
fn sphere_miss_off_axis() {
    let s = Sphere::new(v(0, 0, -4), SCALE, gray());
    let r = down_z_ray(v(3, 0, 0));
    assert!(s.hits(&r, 0, T_MAX).is_none());
}

#[test]
fn moving_sphere_center_interpolates() {
    let s = Sphere::moving(v(0, 0, 0), v(2, 0, 0), SCALE, gray());
    let mid = s.center_at(SCALE / 2);
    assert_eq!((mid.x, mid.y, mid.z), (SCALE, 0, 0));
}

#[test]
fn triangle_interior_hit_and_barycentric_rejection() {
    let tri = Triangle::new(v(-1, -1, -2), v(1, -1, -2), v(0, 1, -2));
    let m = gray();
    // through the interior
    let inside = tri.hits(&down_z_ray(v(0, 0, 0)), 0, T_MAX, &m).expect("interior hit");
    assert_eq!(inside.t, 2 * SCALE);
    // strictly outside points yield no hit
    assert!(tri.hits(&down_z_ray(v(2, 0, 0)), 0, T_MAX, &m).is_none());
    assert!(tri.hits(&down_z_ray(v(0, 2, 0)), 0, T_MAX, &m).is_none());
    assert!(tri.hits(&down_z_ray(v(-2, -2, 0)), 0, T_MAX, &m).is_none());
}

#[test]
fn triangle_parallel_ray_misses() {
    let tri = Triangle::new(v(-1, -1, -2), v(1, -1, -2), v(0, 1, -2));
    let m = gray();
    let r = Ray { origin: v(0, 0, 0), direction: Vec3 { x: SCALE, y: 0, z: 0 }, time: 0 };
    assert!(tri.hits(&r, 0, T_MAX, &m).is_none());
}

#[test]
fn plane_hit_and_disk_clip() {
    let p = Plane {
        center: v(0, 0, -3),
        normal: Vec3 { x: 0, y: 0, z: SCALE },
        radius: None,
        material: gray(),
    };
    let h = p.hits(&down_z_ray(v(7, 7, 0)), 0, T_MAX).expect("plane hit");
    assert_eq!(h.t, 3 * SCALE);
    let clipped = Plane {
        center: v(0, 0, -3),
        normal: Vec3 { x: 0, y: 0, z: SCALE },
        radius: Some(2 * SCALE),
        material: gray(),
    };
    assert!(clipped.hits(&down_z_ray(v(1, 0, 0)), 0, T_MAX).is_some());
    assert!(clipped.hits(&down_z_ray(v(7, 7, 0)), 0, T_MAX).is_none());
}

#[test]
fn quadrilateral_hit_surface_coordinates() {
    // a 4 x 2 patch in the plane two units down
    let q = Quadrilateral::new(v(0, 0, -2), v(4, 0, 0), v(0, 2, 0), gray()).expect("patch");
    let h = q.hits(&down_z_ray(v(1, 1, 0)), 0, T_MAX).expect("patch hit");
    assert_eq!(h.t, 2 * SCALE);
    // planar coordinates: a quarter along the first edge, half along the second
    assert_eq!(h.u, SCALE / 4);
    assert_eq!(h.v, SCALE / 2);
    // the half-open containment: the far corner itself is outside
    assert!(q.hits(&down_z_ray(v(4, 2, 0)), 0, T_MAX).is_none());
    assert!(q.hits(&down_z_ray(v(-1, 1, 0)), 0, T_MAX).is_none());
    // a degenerate patch cannot be built
    assert!(Quadrilateral::new(v(0, 0, 0), v(1, 0, 0), v(2, 0, 0), gray()).is_none());
}

#[test]
fn quadrilateral_pdf_positive_toward_patch() {
    let q = Quadrilateral::new(v(-2, -1, -3), v(4, 0, 0), v(0, 2, 0), gray()).expect("patch");
    let toward = Vec3 { x: 0, y: 0, z: -SCALE };
    let away = Vec3 { x: 0, y: 0, z: SCALE };
    assert!(q.pdf_value(&v(0, 0, 0), &toward) > 0);
    assert_eq!(q.pdf_value(&v(0, 0, 0), &away), 0);
}

#[test]
fn degenerate_plane_normal_is_refused() {
    let r = Shape::plane(v(0, 0, 0), Vec3 { x: 0, y: 0, z: 0 }, gray());
    assert!(r.is_none());
    let ok = Shape::plane(v(0, 0, 0), Vec3 { x: 0, y: 0, z: SCALE }, gray());
    assert!(ok.is_some());
}

#[test]
fn sphere_uv_covers_the_unit_square() {
    let (u, v1) = Sphere::get_uv(Vec3 { x: 0, y: SCALE, z: 0 });
    assert!(v1 <= SCALE / 64, "north pole latitude was {v1}");
    let (_, v2) = Sphere::get_uv(Vec3 { x: 0, y: -SCALE, z: 0 });
    assert!(v2 >= SCALE - SCALE / 64, "south pole latitude was {v2}");
    assert!(u <= SCALE);
}
