pub mod common;
pub mod dense;
pub mod empty_node_stack;
pub mod full;
pub mod mart_labels;
pub mod mart_vec;
pub mod model;
pub mod node_types;
pub mod offsets;
pub mod sparse;
pub mod traits;
