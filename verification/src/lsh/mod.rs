pub mod linear;
pub mod tensored;

pub use linear::{GridPoint, LinearFactorLsh};
pub use tensored::{GridCurve, TensoredMultiHash};
