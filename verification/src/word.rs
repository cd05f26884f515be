//! The Word codec: the fixed-width integer unit of the table encodings.
//!
//! Every cell of the namespace table and of the per-namespace transaction
//! tables (counts, identifiers, end offsets) is one `Word`, serialized as a
//! fixed-width little-endian integer. Converting a wider value into a `Word`
//! fails when it exceeds the word's capacity.

use vstd::prelude::*;

use crate::BuildError;

verus! {

/// The table serialization unit.
pub type Word = u32;

/// Serialized width of one [`Word`] in bytes.
pub const WORD_BYTES: usize = 4;

/// The bytes of one serialized word: fixed-width little-endian.
pub open spec fn word_bytes(w: Word) -> Seq<u8> {
    vstd::bytes::spec_u32_to_le_bytes(w)
}

/// The word read back from four bytes.
pub open spec fn word_of_bytes(b: Seq<u8>) -> Word {
    vstd::bytes::spec_u32_from_le_bytes(b)
}

/// The word stored at word index `i` of `b` (bytes `4 * i .. 4 * i + 4`).
pub open spec fn word_at(b: Seq<u8>, i: int) -> Word {
    word_of_bytes(b.subrange(WORD_BYTES * i, WORD_BYTES * i + WORD_BYTES))
}

/// Serializing then parsing a word gives it back, and a serialized word is
/// always four bytes.
pub proof fn lemma_word_round_trip()
    ensures
        forall|w: Word| #[trigger] word_bytes(w).len() == WORD_BYTES,
        forall|w: Word| word_of_bytes(#[trigger] word_bytes(w)) == w,
{
    assert forall|w: Word| #[trigger] word_bytes(w).len() == WORD_BYTES by {
        vstd::bytes::lemma_auto_spec_u32_to_from_le_bytes();
        assert(vstd::bytes::spec_u32_to_le_bytes(w).len() == 4);
    }
    assert forall|w: Word| word_of_bytes(#[trigger] word_bytes(w)) == w by {
        vstd::bytes::lemma_auto_spec_u32_to_from_le_bytes();
        assert(vstd::bytes::spec_u32_to_le_bytes(w).len() == 4);
        assert(vstd::bytes::spec_u32_from_le_bytes(vstd::bytes::spec_u32_to_le_bytes(w)) == w);
    }
}

/// Appends the little-endian bytes of `w` to `out`.
pub fn push_word(out: &mut Vec<u8>, w: Word)
    ensures
        final(out)@ == old(out)@ + word_bytes(w),
{
    let bytes = vstd::bytes::u32_to_le_bytes(w);
    out.extend_from_slice(bytes.as_slice());
    proof {
        assert(out@ =~= old(out)@ + word_bytes(w));
    }
}

/// Reads the word whose serialization starts at byte `pos` of `bytes`.
pub fn read_word(bytes: &[u8], pos: usize) -> (w: Word)
    requires
        pos + WORD_BYTES <= bytes@.len(),
    ensures
        w == word_of_bytes(bytes@.subrange(pos as int, pos + WORD_BYTES)),
{
    let len: usize = bytes.len();
    let mut cell: Vec<u8> = Vec::new();
    let mut i: usize = 0;
    while i < WORD_BYTES
        invariant
            i <= WORD_BYTES,
            len == bytes@.len(),
            pos + WORD_BYTES <= len,
            cell@ == bytes@.subrange(pos as int, pos + i),
        decreases WORD_BYTES - i,
    {
        cell.push(bytes[pos + i]);
        i = i + 1;
        proof {
            assert(cell@ =~= bytes@.subrange(pos as int, pos + i));
        }
    }
    vstd::bytes::u32_from_le_bytes(cell.as_slice())
}

/// Converts a byte count or identifier into a [`Word`], rejecting values that
/// exceed the word's capacity.
pub fn word_from_usize(v: usize) -> (r: Result<Word, BuildError>)
    ensures
        v <= Word::MAX <==> r is Ok,
        r is Ok ==> r->Ok_0 == v,
        r is Err ==> r->Err_0 == BuildError::WordOverflow,
{
    if v <= Word::MAX as usize {
        Ok(v as Word)
    } else {
        Err(BuildError::WordOverflow)
    }
}

/// Converts a namespace identifier into a [`Word`], rejecting values that
/// exceed the word's capacity.
pub fn word_from_u64(v: u64) -> (r: Result<Word, BuildError>)
    ensures
        v <= Word::MAX <==> r is Ok,
        r is Ok ==> r->Ok_0 == v,
        r is Err ==> r->Err_0 == BuildError::WordOverflow,
{
    if v <= Word::MAX as u64 {
        Ok(v as Word)
    } else {
        Err(BuildError::WordOverflow)
    }
}

} // verus!
