//! Float-free core of a Monte Carlo path tracer: the depth-bounded integrator
//! state machine and its trace loop, the closest-hit scan over a scene, the
//! choice of a sphere's intersection root, row assembly of the image buffer and
//! face resolution of indexed meshes. Vector arithmetic on real numbers, and
//! the randomness, are supplied by callers.

pub mod framebuffer;
pub mod mesh;
pub mod objects;
pub mod sample;
pub mod util;
