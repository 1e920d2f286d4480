//! A path tracer whose geometric and scattering core is carried out in
//! fixed-point arithmetic and verified: axis-aligned bounding boxes, a
//! bounding-volume hierarchy built with a surface-area heuristic, analytic
//! sphere intersection, physically based scattering laws, and a bounded
//! radiance estimator.
pub mod aabb;
pub mod fixed;
pub mod hitable;
pub mod material;
pub mod radiance;
pub mod ray;
mod rng;
pub mod sphere;
pub mod vec3;
