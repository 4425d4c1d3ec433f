//! Kernels on matrices of small integers.
pub mod blocks;
pub mod integer;
pub mod maxsim;
