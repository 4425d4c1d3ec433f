//! Implementation of "maxsim" kernels.
//!
//! Let `A` be a `M x K` matrix and `B` a `K x N` matrix. The "maxsim" result `C` is a
//! `M`-dimensional vector where
//!
//! ```text
//! C[i] = max(j in 0..N, dot(A[i, :], B[:, j]))
//! ```
pub mod error;
pub mod packed_u8_x_unpacked_u4;
pub mod packed_u8_x_unpacked_u8;
pub mod params;
pub mod tiles;
