use raytracer::fx::SCALE;
use raytracer::material::Material;
use raytracer::mesh::Mesh;
use raytracer::ray::{Ray, T_MAX};
use raytracer::triangle::Triangle;
use raytracer::vec3::Vec3;

fn gray() -> Material {
    Material::lambertian_from_vec3(Vec3 { x: SCALE / 2, y: SCALE / 2, z: SCALE / 2 })
}

/// A small deterministic generator, so the triangle soup is fixed.
struct Lcg(u64);

impl Lcg {
    fn next(&mut self) -> u64 {
        self.0 = self.0.wrapping_mul(6364136223846793005).wrapping_add(1442695040888963407);
        self.0 >> 33
    }

    fn coord(&mut self) -> i64 {
        // within about +-8 units
        (self.next() % (16 * SCALE as u64)) as i64 - 8 * SCALE
    }
}

fn triangle_soup(n: usize, seed: u64) -> Vec<Triangle> {
    let mut rng = Lcg(seed);
    let mut tris = Vec::new();
    while tris.len() < n {
        let base = Vec3 { x: rng.coord(), y: rng.coord(), z: rng.coord() - 16 * SCALE };
        let e1 = Vec3 {
            x: rng.coord() / 2,
            y: rng.coord() / 2,
            z: rng.coord() / 2,
        };
        let e2 = Vec3 {
            x: rng.coord() / 2,
            y: rng.coord() / 2,
            z: rng.coord() / 2,
        };
        tris.push(Triangle::new(
            base,
            Vec3 { x: base.x + e1.x, y: base.y + e1.y, z: base.z + e1.z },
            Vec3 { x: base.x + e2.x, y: base.y + e2.y, z: base.z + e2.z },
        ));
    }
    tris
}

#[test]
fn bvh_traversal_matches_linear_scan() {
    let mesh = Mesh::new(triangle_soup(64, 7), gray());
    let mut rng = Lcg(99);
    let mut checked = 0;
    for _ in 0..200 {
        let origin = Vec3 { x: rng.coord() / 2, y: rng.coord() / 2, z: 0 };
        let dx = (rng.next() % (SCALE as u64)) as i64 - SCALE / 2;
        let dy = (rng.next() % (SCALE as u64)) as i64 - SCALE / 2;
        let ray = Ray { origin, direction: Vec3 { x: dx, y: dy, z: -SCALE }, time: 0 };
        let fast = mesh.hits(&ray, 0, T_MAX);
        let slow = mesh.hits_linear(&ray, 0, T_MAX);
        match (fast, slow) {
            (None, None) => {},
            (Some(a), Some(b)) => {
                assert_eq!(a.t, b.t, "closest parameters diverged");
                checked += 1;
            },
            (a, b) => panic!(
                "tree and scan disagree on whether the ray hits: {:?} vs {:?}",
                a.map(|h| h.t),
                b.map(|h| h.t)
            ),
        }
    }
    assert!(checked > 10, "too few hits to be meaningful: {checked}");
}

#[test]
fn bvh_structure_counts() {
    let mesh = Mesh::new(triangle_soup(33, 3), gray());
    assert_eq!(mesh.triangles.len(), 33);
    assert_eq!(mesh.bvh_nodes.len(), 2 * 33 - 1);
    assert!(mesh.nodes_used >= 1);
    assert!(mesh.nodes_used <= mesh.bvh_nodes.len());
    assert!(mesh.bvh_nodes[0].is_leaf() || mesh.nodes_used >= 3);
    // the index array stays a permutation
    let mut seen = vec![false; 33];
    for &s in mesh.triangle_indices.iter() {
        assert!(!seen[s]);
        seen[s] = true;
    }
}

#[test]
fn scaling_then_translating_matches_combined_transform() {
    let tris = triangle_soup(12, 21);
    let gray1 = Material::lambertian_from_vec3(Vec3 { x: SCALE / 2, y: SCALE / 2, z: SCALE / 2 });
    let gray2 = Material::lambertian_from_vec3(Vec3 { x: SCALE / 2, y: SCALE / 2, z: SCALE / 2 });
    let mut stepwise = Mesh::new(clone_vertices(&tris), gray1);
    let mut combined = Mesh::new(clone_vertices(&tris), gray2);
    let factor = Vec3 { x: SCALE / 2, y: 2 * SCALE, z: SCALE };
    let offset = Vec3 { x: 3 * SCALE, y: -SCALE, z: 2 * SCALE };
    assert!(stepwise.scale(factor));
    assert!(stepwise.translate(offset));
    assert!(combined.transform(factor, offset));
    assert_eq!(stepwise.triangles.len(), combined.triangles.len());
    for k in 0..stepwise.triangles.len() {
        let a = &stepwise.triangles[k];
        let b = &combined.triangles[k];
        assert_eq!((a.p1.x, a.p1.y, a.p1.z), (b.p1.x, b.p1.y, b.p1.z));
        assert_eq!((a.p2.x, a.p2.y, a.p2.z), (b.p2.x, b.p2.y, b.p2.z));
        assert_eq!((a.p3.x, a.p3.y, a.p3.z), (b.p3.x, b.p3.y, b.p3.z));
    }
}

/// Rebuild a triangle list from its vertices (the library's triangles do
/// not implement `Clone`).
fn clone_vertices(v: &Vec<Triangle>) -> Vec<Triangle> {
    v.iter().map(|t| Triangle::new(t.p1, t.p2, t.p3)).collect()
}

#[test]
fn quarter_turn_rotation_swaps_the_horizontal_axes() {
    let base = Triangle::new(
        Vec3 { x: SCALE, y: 2 * SCALE, z: 3 * SCALE },
        Vec3 { x: 4 * SCALE, y: 5 * SCALE, z: 6 * SCALE },
        Vec3 { x: 7 * SCALE, y: 8 * SCALE, z: -2 * SCALE },
    );
    let mut mesh = Mesh::new(vec![Triangle::new(base.p1, base.p2, base.p3)], gray());
    // a quarter turn about the vertical axis: cosine 0, sine 1
    assert!(mesh.rotate_y(0, SCALE));
    let r = &mesh.triangles[0];
    // (x, z) becomes (z, -x); the height is untouched
    assert_eq!((r.p1.x, r.p1.y, r.p1.z), (base.p1.z, base.p1.y, -base.p1.x));
    assert_eq!((r.p2.x, r.p2.y, r.p2.z), (base.p2.z, base.p2.y, -base.p2.x));
    assert_eq!((r.p3.x, r.p3.y, r.p3.z), (base.p3.z, base.p3.y, -base.p3.x));
}

#[test]
fn out_of_bounds_transform_leaves_mesh_unchanged() {
    let mut mesh = Mesh::new(triangle_soup(4, 5), gray());
    let before: Vec<(i64, i64, i64)> = mesh.triangles.iter().map(|t| (t.p1.x, t.p1.y, t.p1.z)).collect();
    // a translation past the scene bound must be refused
    let ok = mesh.translate(Vec3 { x: 0x400_0000, y: 0, z: 0 });
    assert!(!ok);
    let after: Vec<(i64, i64, i64)> = mesh.triangles.iter().map(|t| (t.p1.x, t.p1.y, t.p1.z)).collect();
    assert_eq!(before, after);
}
