//! Integer-only fixed-point inference engine for a small transformer
//! language model.  Every arithmetic operation of the forward pass —
//! token mixing, normalization, attention, feed-forward, output
//! projection — is performed with 24-bit fixed-point integers and two
//! custom quantized encodings (an 8-bit logarithmic weight code and a
//! 16-bit compact float), so results are bit-reproducible on any
//! machine without a floating-point unit.
use vstd::prelude::*;

pub mod fixed;
pub mod matmul;
pub mod attention;
pub mod layernorm;
pub mod embedding;
pub mod mlp;
pub mod prng;
pub mod block;
pub mod unembedding;
pub mod model;

verus! {

/// Width of the embedding vectors (channels per token).
pub const EMBED_SIZE: usize = 240;

/// Bit width of a fixed-point value.
pub const FIXED_POINT_SIZE: u32 = 24;

/// All fixed-point values are kept masked to this 24-bit range.
pub const FIXED_POINT_MASK: u32 = 0xFFFFFF;

/// Number of attention heads.
pub const HEADS: usize = 5;

/// Channels per attention head.
pub const HEAD_SIZE: usize = 48;

/// Hidden width of the feed-forward block.
pub const HIDDEN_SIZE: usize = 960;

/// Number of transformer blocks.
pub const LAYERS: usize = 6;

/// Number of token ids the model knows.
pub const VOCAB_SIZE: usize = 1920;

/// Rows of the position-embedding table; positions beyond it are
/// clamped to its last row.
pub const POS_SPAN: usize = 64;

/// Longest supported sequence: the softmax scratch and lookup domain
/// hold 1024 entries, so a key/value cache may not grow past this.
pub const CACHE_LIMIT: usize = 1024;

/// Entries of each exponential lookup table.
pub const TABLE_SIZE: usize = 1024;

/// Why a forward call or a lookup was rejected before touching any state.
#[derive(Clone, Copy, Debug, PartialEq, Eq, Structural)]
pub enum EngineError {
    /// A token id at or past `VOCAB_SIZE`.
    TokenOutOfRange,
    /// A position id at or past `POS_SPAN` handed to the embedding store.
    PositionOutOfRange,
    /// A key/value cache already holds `CACHE_LIMIT` entries.
    CacheFull,
}

/// A well-formed fixed-point vector: every entry already masked to 24 bits.
pub open spec fn fp_seq(s: Seq<u32>) -> bool {
    forall|i: int| 0 <= i < s.len() ==> s[i] < 0x1000000
}

} // verus!
