//! Raw integer dot products.
pub mod packed_u8_x_unpacked_u4;
