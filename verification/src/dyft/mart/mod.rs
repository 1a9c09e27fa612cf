pub mod buckets;
pub mod building;
pub mod debug;
pub mod dispatch;
pub mod growth;
pub mod heap;
pub mod index;
pub mod model;
pub mod query;
pub mod recall;
pub mod search;
pub mod searching;
pub mod split;
pub mod splitting;
pub mod state;
pub mod structure;
pub mod export;
pub mod exact;
