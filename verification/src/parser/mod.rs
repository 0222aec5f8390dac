pub mod bitmap64;
pub mod bitmap_filter;
pub mod bits;
pub mod layout;
pub mod naive;
pub mod optimized;
