//! Integer core of a Monte Carlo path tracer: the layout of its bounding
//! volume hierarchy, the lattice permutations of its Perlin noise, texel
//! lookup in image textures, the grouping of mesh indices into triangles and
//! the division of samples among workers. The floating-point geometry and
//! shading built on these lives in the application crate.
pub mod bvh;
pub mod obj_loader;
pub mod perlin;
mod rt_weekend;
pub mod sampling;
pub mod texture;
