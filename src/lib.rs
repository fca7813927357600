//! Approximate nearest-neighbour search over a forest of random-projection
//! trees stored in a key-value store: the verified core of the tree builder,
//! the node records, and the item lookups used while building.
use vstd::prelude::*;

pub mod binary_quantized;
pub mod bitmap;
pub mod builder;
pub mod codec;
pub mod leaf_index;
pub mod node_ids;
pub mod node_spans;
pub mod query;
pub mod split;

pub use binary_quantized::{binary_quantized_euclidean_distance, BinaryQuantizedEuclidean};
pub use builder::{build_is_complete, Action, Phase, SplitVerdict, TreeBuilder};
pub use codec::{
    is_leaf_record, DecodeError, DimensionMismatch, Metadata, Node, SizeMismatch,
    UnalignedVector,
};
pub use leaf_index::{LeafIndex, LeafIndexError, SubsetIndex};
pub use node_ids::{first_free_id, ConcurrentNodeIds};
pub use node_spans::NodeSpans;
pub use query::{default_search_k, Candidates};
pub use split::{partition_by_side, split_is_balanced, split_is_degenerate, Side};

verus! {

/// The id of an item, a leaf of the trees.
pub type ItemId = u32;

/// The id of a node: an item or a node of a tree.
pub type NodeId = u32;

} // verus!
