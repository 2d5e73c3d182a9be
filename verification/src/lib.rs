//! A Monte Carlo path tracer over fixed-point arithmetic: scene geometry,
//! the bounding-volume hierarchy, materials, sampling densities and the
//! recursive radiance estimator, each with a verified contract.

pub mod fx;
pub mod vec3;
pub mod ray;
pub mod util;
pub mod perlin;
pub mod texture;
pub mod hittable;
pub mod material;
pub mod pdf;
pub mod triangle;
pub mod sphere;
pub mod plane;
pub mod quadrilateral;
pub mod mesh;
pub mod constant_medium;
pub mod shape;
pub mod camera;
pub mod scene;
