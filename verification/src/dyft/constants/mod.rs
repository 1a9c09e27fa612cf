pub mod factors;
pub mod label_distance;
pub mod tables;
pub mod fitting;
pub mod counting;
