//! The mathematics that the scheme rests on.
pub mod congruence;
pub mod sums;
pub mod roots;
pub mod fourier;
pub mod lagrange;
pub mod polynomial;
pub mod quotients;
pub mod primality;
