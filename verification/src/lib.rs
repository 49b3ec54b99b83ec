//! A small ray tracer core: vectors, rays, spheres, materials and the
//! recursive shading function.
//!
//! All numbers are doubles, held as bit patterns ([`scalar::Scalar`]) and
//! computed on with integer arithmetic, so that every result is stated
//! exactly: a sum is the double nearest to the exact sum, and so on
//! ([`rounding`], [`arith`], [`root`], [`cube`]). On these stand the
//! vectors ([`vec3`]), the rays ([`ray`]), what a ray can hit
//! ([`hittable`]), how surfaces scatter ([`material`]), the random samples
//! ([`sampling`]) and the color that a ray brings back ([`shading`]).
pub mod arith;
pub mod convert;
pub mod cube;
pub mod elementary;
pub mod hittable;
pub mod material;
pub mod ray;
pub mod root;
pub mod rounding;
pub mod sampling;
pub mod scalar;
pub mod shading;
pub mod vec3;
