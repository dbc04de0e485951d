//! A verified tree hash over fixed-size chunks of input, built on Blake2b-256.
//!
//! An input is split into 4096-byte chunks, the chunks are hashed as leaves,
//! and pairs of subtree digests are combined into parent digests until a
//! single root remains. The root hash commits to the input length through an
//! eight-byte little-endian suffix and the Blake2b last-node flag, so the
//! root of one input can never collide with an interior node or with the
//! root of an input of another length.
use vstd::prelude::*;

pub mod geometry;
pub mod node;
pub mod tree;
pub mod merge;
pub mod state;
pub mod writer;

pub use geometry::largest_power_of_two;
pub use geometry::left_len;
pub use node::Finalization;
pub use node::encode_len;
pub use node::hash_node;
pub use node::parent_hash;
pub use tree::hash;
pub use tree::hash_recurse;
pub use tree::hash_recurse_rayon;
pub use state::State;
pub use state::StateFinish;
pub use writer::Writer;

verus! {

/// Digest length in bytes.
pub const HASH_SIZE: usize = 32;

/// Length of two digests side by side, the encoding of a parent node.
pub const PARENT_SIZE: usize = 64;

/// Length of the little-endian total-length suffix fed into the root node.
pub const HEADER_SIZE: usize = 8;

/// Leaf size: inputs are cut into chunks of this many bytes.
pub const CHUNK_SIZE: usize = 4096;

/// Upper bound on the number of subtree digests pending at any time; enough
/// for inputs up to `2^64 - 1` bytes.
pub const MAX_DEPTH: usize = 64;

/// Inputs of at most this many bytes are hashed on the calling thread.
pub const MAX_SINGLE_THREADED: usize = 16384;

/// Default number of bytes handed to one worker job by the writer.
pub const JOB_SIZE: usize = 65536;

} // verus!
