pub mod cells;
pub mod sparse_group;
pub mod sparse_table;
