pub mod bit_tools;
pub mod byte_pack;
pub mod constants;
pub mod dyft_index;
pub mod io;
pub mod mart;
pub mod node;
pub mod sparse;
pub mod stats;

pub use bit_tools::vcode_array::{SketchError, VCodeArray};
pub use bit_tools::vcode_tools::{BitTools, VCodeTools, VCodeToolsBase};
pub use byte_pack::BytePack;
pub use dyft_index::{DyFTStatistics, DyftIndex};
pub use constants::factors::{DyftFactors, SplitThresholds};
pub use constants::label_distance::label_distance_of;
pub use constants::tables::{HamDist, HamTables, BIT_POSITION_TABLE};
pub use mart::export::{MartExporter, MartTrieExport, TrieNode};
pub use mart::query::{DyFTPartialVerificationResult, Verification};
pub use mart::state::StateType;
pub use mart::structure::{MartConfig, MartIndex};
pub use node::common::{
    MartByteLabel, MartCursor, MartEdge, MartInsertFlags, MartNodeId, MartNodeTypes,
    MartPointer, MartPointerOffset, RawMartPointer, MART_NID_BITS, MART_NILID, MART_NIL_LABEL,
    MART_NTYPE_BITS, MART_PTR_SIZE,
};
pub use node::dense::MartDense;
pub use node::empty_node_stack::EmptyNodes;
pub use node::full::MartFull;
pub use node::mart_labels::ByteLabels;
pub use node::mart_vec::MartVec;
pub use node::node_types::{
    IntoMartNode, MartLeaf, MartNilType, MartNode128, MartNode16, MartNode2, MartNode256,
    MartNode32, MartNode4, MartNode64, MartNode8,
};
pub use node::offsets::{MartDenseOffsets, MartFullOffsets, MartSparseOffsets};
pub use node::sparse::MartSparse;
pub use node::traits::{
    InNodeStatistics, MartArray, MartArrayExtractable, MartOffsets, TrieCounts,
};
pub use sparse::sparse_group::SparseGroup;
pub use sparse::sparse_table::SparseTable;
pub use stats::{DyFTStats, InNodeStats, PopulationStats};
