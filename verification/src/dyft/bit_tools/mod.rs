pub mod bits;
pub mod distance;
pub mod vcode_array;
pub mod vcode_impls;
pub mod vcode_tools;
