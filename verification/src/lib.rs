//! Prime field arithmetic in Montgomery form over fixed-width 64-bit limb
//! vectors: big-integer primitives, Montgomery multiplication and reduction,
//! binary-GCD inversion, modular square roots, and rejection sampling, all
//! parameterized by a modulus, a quadratic-nonresidue generator, and a limb
//! count.

pub mod limbs;
pub mod modmath;
pub mod params;
pub mod field;
pub mod mont;
pub mod inverse;
pub mod power;
pub mod construct;
pub mod sqrt;
pub mod laws;
pub mod sample;
