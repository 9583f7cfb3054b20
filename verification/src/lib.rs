//! Sparse LDLt factorization of symmetric matrices, and solves with the
//! factor.
//!
//! A symmetric matrix `A` and a permutation `P` are factorized as
//! `P A Pt == L D Lt`, with `L` lower triangular with ones on its diagonal and
//! `D` diagonal. The work is done in two phases on buffers that the caller
//! owns: [`symbolic::ldl_symbolic`] finds the elimination tree and the size of
//! every column of `L` from the pattern of the matrix alone, and
//! [`numeric::ldl_numeric`] computes the values. The three solves of
//! [`solve`] then solve `L D Lt x = b`.
//!
//! The element type is any type with the four operations and `==`; see
//! [`scalar`]. The contracts of the executable functions say exactly which
//! operations are applied to which operands in which order, so they hold for
//! arithmetic that rounds as well as for exact arithmetic. For exact
//! arithmetic, [`reconstruct`] proves that the factor reproduces the matrix
//! and [`system`] that the solves give the one solution of the system.
//!
//! The modules:
//! - [`error`], [`scalar`], [`permutation`], [`matrix`]: the types;
//! - [`etree`], [`rowpattern`]: the structure of the factor;
//! - [`symbolic`], [`factor`], [`numeric`], [`solve`]: the computation and
//!   what it computes;
//! - [`exact`], [`sums`], [`products`], [`dense`], [`reconstruct`],
//!   [`system`]: what holds in exact arithmetic;
//! - [`gf2`]: an element type with exact arithmetic.

use vstd::prelude::*;

pub mod dense;
pub mod error;
pub mod etree;
pub mod exact;
pub mod factor;
pub mod gf2;
pub mod matrix;
pub mod numeric;
pub mod permutation;
pub mod products;
pub mod reconstruct;
pub mod rowpattern;
pub mod scalar;
pub mod solve;
pub mod sums;
pub mod symbolic;
pub mod system;
