pub mod error;
pub mod laws;
pub mod matrix;

pub use error::MatrixError;
pub use matrix::Matrix;
