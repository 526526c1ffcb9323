//! Arbitrary-precision unsigned decimal arithmetic on little-endian digit
//! vectors, with the multiplication done by a fast Fourier transform, and
//! Fibonacci numbers by matrix exponentiation on top of it.
//!
//! The transform works on whole numbers modulo a prime, so that it is exact:
//! [`modular`] holds that arithmetic, [`poly`] and [`spectrum`] say what the
//! transform is and prove its laws, and [`ft`] holds the fast transform
//! itself, with the bit-reversal permutation and its cache. [`digits`] is the
//! model of a digit vector, [`oper`] the addition and multiplication of digit
//! vectors, [`big`] the number type with its text forms, and [`fibb`] the
//! Fibonacci numbers. [`native`] is a second number type that takes a shortcut
//! through machine integers for short operands, [`rational`] exact fractions of
//! machine integers.

pub mod big;
pub mod digits;
pub mod fibb;
pub mod ft;
pub mod modular;
pub mod native;
pub mod oper;
pub mod poly;
pub mod rational;
pub mod spectrum;
