pub mod cholesky;
pub mod scalar;
