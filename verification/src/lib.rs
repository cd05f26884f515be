//! Block-payload codec for a namespaced blockchain sequencer.
//!
//! A block's payload carries transactions grouped by namespace. The payload is
//! serialized as a sequence of per-namespace regions, each led by a
//! transaction table of fixed-width little-endian words; a separate namespace
//! table maps namespace identifiers to their end offsets inside the payload.
//! Commitments over these bytes let protocol participants agree on a block
//! without exchanging its full contents.

use vstd::prelude::*;

pub mod commitment;
pub mod l1_block;
pub mod ns_table;
pub mod payload;
pub mod transaction;
pub mod tx_table;
pub mod word;

verus! {

/// Why building a block payload failed.
///
/// `WordOverflow`: an offset, count or namespace identifier does not fit in
/// the table word width. The caller must shrink or restructure the
/// transaction set; the condition is not retryable.
#[derive(Clone, Copy, Debug, PartialEq, Eq, Structural)]
pub enum BuildError {
    WordOverflow,
}

} // verus!
