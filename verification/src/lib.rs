pub mod arithmetic;
pub mod bytes;
pub mod data_model;
pub mod digest;
pub mod float_bits;
pub mod heap;
pub mod layout;
pub mod matrix_kernels;
pub mod metric;
pub mod node_set;
pub mod random;
pub mod ranking;
pub mod routing;
pub mod search;
pub mod start_points;
pub mod storage;
pub mod text;
pub mod wide;
