//! Verified core of a path tracer: quantized axis-aligned bounding boxes,
//! a bounding volume hierarchy with nearest-hit traversal, the path
//! integrator's scattering decisions and bounce budget, and the
//! environment-map texel lookup.
pub mod aabb;
pub mod bvh;
pub mod integrator;
pub mod skybox;
