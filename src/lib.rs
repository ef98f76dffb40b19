//! Discrete core of a CPU ray tracer: shape identities, intersections kept in
//! order of `t` and the choice of the visible hit, the refractive-index
//! containment stack, the bounce budget of reflected and refracted rays,
//! procedural pattern lattices, hex colors, the pixel grid and PPM framing.
//!
//! Everything measured in floating point (vectors, matrices, shading) stays
//! with the caller, which hands this crate integers: object identities, keys
//! that order intersection parameters, lattice cell indices and bytes.
pub mod bounces;
pub mod canvas;
pub mod color;
pub mod containment;
pub mod ids;
pub mod intersections;
pub mod lattice;
pub mod ppm;
