pub mod select;
pub mod hnsw;
pub mod ivf;
