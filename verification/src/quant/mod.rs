pub mod bitops;
pub mod packed;
pub mod codebook;
