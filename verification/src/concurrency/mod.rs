pub mod pool;
pub mod rayon;
