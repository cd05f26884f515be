//! The Namespace Table: the payload's top-level index.
//!
//! Serialized as `count, id_1, end_1, id_2, end_2, …`, all fixed-width
//! little-endian words. `end_j` is the absolute end offset of namespace `j`'s
//! byte region inside the raw payload; namespace 1's implicit start is `0`.
//! The table travels beside the payload bytes as standalone metadata; it is
//! not embedded in them.

use vstd::prelude::*;

use crate::commitment::{
    constant_str_bytes, keccak256_of, push_constant_str, push_var_size_bytes, var_size_bytes,
    Commitment,
};
use crate::tx_table::{lemma_words_bytes_at, lemma_words_bytes_len, lemma_words_bytes_push,
    words_bytes};
use crate::word::{word_at, word_bytes, word_from_u64, word_from_usize, push_word, read_word,
    Word, WORD_BYTES};
use crate::BuildError;

verus! {

/// One table entry before serialization: a namespace identifier and the
/// namespace's absolute end offset in the payload.
pub open spec fn ns_pair_fits(p: (u64, int)) -> bool {
    p.0 <= Word::MAX && 0 <= p.1 <= Word::MAX
}

/// Whether a whole entry list fits the word width.
pub open spec fn ns_pairs_fit(pairs: Seq<(u64, int)>) -> bool {
    pairs.len() <= Word::MAX && forall|j: int| 0 <= j < pairs.len() ==> ns_pair_fits(#[trigger] pairs[j])
}

/// The interleaved words of the entry list: `id_1, end_1, id_2, end_2, …`.
pub open spec fn ns_words(pairs: Seq<(u64, int)>) -> Seq<Word> {
    Seq::new(
        2 * pairs.len(),
        |k: int|
            if k % 2 == 0 {
                pairs[k / 2].0 as Word
            } else {
                pairs[k / 2].1 as Word
            },
    )
}

/// The serialized namespace table: a count word, then the entry words.
pub open spec fn ns_table_bytes(pairs: Seq<(u64, int)>) -> Seq<u8> {
    word_bytes(pairs.len() as Word) + words_bytes(ns_words(pairs))
}

/// How many entries a parser accepts from table bytes: the declared count,
/// capped by the number of entry pairs the bytes can actually hold.
pub open spec fn ns_count(nsb: Seq<u8>) -> int {
    if nsb.len() < WORD_BYTES {
        0
    } else {
        let declared = word_at(nsb, 0) as int;
        let cap = (nsb.len() - WORD_BYTES) / (2 * WORD_BYTES as int);
        if declared <= cap {
            declared
        } else {
            cap
        }
    }
}

/// The identifier word of entry `j`.
pub open spec fn ns_id_at(nsb: Seq<u8>, j: int) -> Word {
    word_at(nsb, 1 + 2 * j)
}

/// The end-offset word of entry `j`.
pub open spec fn ns_end_at(nsb: Seq<u8>, j: int) -> Word {
    word_at(nsb, 2 + 2 * j)
}

/// The framing whose Keccak-256 digest is the table's structural
/// commitment: the `NSTABLE` tag, then the table bytes, length-prefixed.
pub open spec fn ns_commit_input(bytes: Seq<u8>) -> Seq<u8> {
    constant_str_bytes(tag_nstable_bytes()) + var_size_bytes(bytes)
}

/// The bytes of the ASCII tag `NSTABLE`.
pub open spec fn tag_nstable_bytes() -> Seq<u8> {
    seq![78u8, 83u8, 84u8, 65u8, 66u8, 76u8, 69u8]
}

/// The namespace-table framing is injective: two tables with different
/// bytes can never frame to the same digest input, because the bytes are
/// length-prefixed. Together with the determinism of the digest this makes
/// the commitment a faithful content digest; that distinct inputs also
/// yield distinct digests is the hash's collision resistance, which no
/// specification here claims.
pub proof fn lemma_ns_input_injective(b1: Seq<u8>, b2: Seq<u8>)
    requires
        ns_commit_input(b1) == ns_commit_input(b2),
        b1.len() <= u64::MAX,
        b2.len() <= u64::MAX,
    ensures
        b1 == b2,
{
    vstd::bytes::lemma_auto_spec_u64_to_from_le_bytes();
    let a = ns_commit_input(b1);
    let b = ns_commit_input(b2);
    assert(a.subrange(9, 17) =~= vstd::bytes::spec_u64_to_le_bytes(b1.len() as u64));
    assert(b.subrange(9, 17) =~= vstd::bytes::spec_u64_to_le_bytes(b2.len() as u64));
    assert(b1.len() == b2.len()) by {
        assert(vstd::bytes::spec_u64_from_le_bytes(
            vstd::bytes::spec_u64_to_le_bytes(b1.len() as u64),
        ) == b1.len() as u64);
        assert(vstd::bytes::spec_u64_from_le_bytes(
            vstd::bytes::spec_u64_to_le_bytes(b2.len() as u64),
        ) == b2.len() as u64);
    }
    assert(b1 =~= a.subrange(17, 17 + b1.len() as int));
    assert(b2 =~= b.subrange(17, 17 + b1.len() as int));
}

/// The payload's top-level index: namespace identifiers and the absolute end
/// offset of each namespace's byte region.
#[derive(Debug)]
pub struct NsTable {
    bytes: Vec<u8>,
}

impl View for NsTable {
    type V = Seq<u8>;

    closed spec fn view(&self) -> Seq<u8> {
        self.bytes@
    }
}

impl NsTable {
    /// Builds the table from `(identifier, end offset)` entries, in namespace
    /// order. Fails with [`BuildError::WordOverflow`] exactly when the entry
    /// count, an identifier or an end offset does not fit in a [`Word`].
    pub fn from_namespace_offsets(offsets: &Vec<(u64, usize)>) -> (r: Result<NsTable, BuildError>)
        ensures
            r is Ok <==> ns_pairs_fit(pairs_model(offsets@)),
            r is Ok ==> r->Ok_0@ == ns_table_bytes(pairs_model(offsets@)),
            r is Err ==> r->Err_0 == BuildError::WordOverflow,
    {
        let ghost pairs = pairs_model(offsets@);
        let n = offsets.len();
        let count_w = match word_from_usize(n) {
            Ok(w) => w,
            Err(e) => {
                return Err(e);
            },
        };
        let mut bytes: Vec<u8> = Vec::new();
        push_word(&mut bytes, count_w);
        let mut j: usize = 0;
        while j < n
            invariant
                j <= n,
                n == offsets@.len(),
                n <= Word::MAX,
                pairs == pairs_model(offsets@),
                forall|m: int| 0 <= m < j ==> ns_pair_fits(#[trigger] pairs[m]),
                bytes@ == word_bytes(n as Word) + words_bytes(ns_words(pairs.take(j as int))),
            decreases n - j,
        {
            let (id, end) = offsets[j];
            let id_w = match word_from_u64(id) {
                Ok(w) => w,
                Err(e) => {
                    proof {
                        assert(!ns_pair_fits(pairs[j as int]));
                    }
                    return Err(e);
                },
            };
            let end_w = match word_from_usize(end) {
                Ok(w) => w,
                Err(e) => {
                    proof {
                        assert(!ns_pair_fits(pairs[j as int]));
                    }
                    return Err(e);
                },
            };
            push_word(&mut bytes, id_w);
            push_word(&mut bytes, end_w);
            proof {
                let wsj = ns_words(pairs.take(j as int));
                let wsj1 = ns_words(pairs.take(j + 1));
                assert(wsj1 =~= wsj.push(id_w).push(end_w));
                lemma_words_bytes_push(wsj, id_w);
                lemma_words_bytes_push(wsj.push(id_w), end_w);
                assert(bytes@ =~= word_bytes(n as Word) + words_bytes(wsj1));
            }
            j = j + 1;
        }
        proof {
            assert(pairs.take(n as int) =~= pairs);
        }
        Ok(NsTable { bytes })
    }

    /// Wraps raw bytes as a namespace table without validation, as the
    /// decode path receives them. Reads clamp, so no later access can go out
    /// of range.
    pub fn from_bytes(bytes: Vec<u8>) -> (r: NsTable)
        ensures
            r@ == bytes@,
    {
        NsTable { bytes }
    }

    /// The table's serialized bytes.
    pub fn bytes(&self) -> (r: &Vec<u8>)
        ensures
            r@ == self@,
    {
        &self.bytes
    }

    /// A copy of the table.
    pub fn clone_table(&self) -> (r: NsTable)
        ensures
            r@ == self@,
    {
        NsTable { bytes: crate::tx_table::subrange_to_vec(self.bytes.as_slice(), 0, self.bytes.len()) }
    }

    /// The number of namespaces the table indexes: the declared count,
    /// capped by what the bytes can hold.
    pub fn len(&self) -> (r: usize)
        ensures
            r == ns_count(self@),
    {
        let blen = self.bytes.len();
        if blen < WORD_BYTES {
            return 0;
        }
        let declared = read_word(self.bytes.as_slice(), 0) as usize;
        let cap = (blen - WORD_BYTES) / (2 * WORD_BYTES);
        proof {
            assert(self.bytes@.subrange(0, WORD_BYTES as int) =~= self@.subrange(
                0,
                WORD_BYTES as int,
            ));
        }
        if declared <= cap {
            declared
        } else {
            cap
        }
    }

    /// Entry `i` of the table: the namespace identifier, its region's start
    /// offset (the previous entry's end, or `0` for the first entry) and its
    /// region's end offset, exactly as the words stand in the bytes, without
    /// clamping.
    pub fn get_table_entry(&self, i: usize) -> (r: (u64, usize, usize))
        requires
            i < ns_count(self@),
        ensures
            r.0 == ns_id_at(self@, i as int) as u64,
            r.1 == if i == 0 {
                0usize
            } else {
                ns_end_at(self@, i as int - 1) as usize
            },
            r.2 == ns_end_at(self@, i as int) as usize,
    {
        let blen = self.bytes.len();
        proof {
            lemma_ns_words_in_range(self@, i as int);
            assert(WORD_BYTES * (2 + 2 * (i as int)) + WORD_BYTES <= blen);
        }
        let id = read_word(self.bytes.as_slice(), WORD_BYTES * (1 + 2 * i)) as u64;
        let start = if i == 0 {
            0usize
        } else {
            read_word(self.bytes.as_slice(), WORD_BYTES * 2 * i) as usize
        };
        let end = read_word(self.bytes.as_slice(), WORD_BYTES * (2 + 2 * i)) as usize;
        (id, start, end)
    }

    /// The table's structural commitment: the Keccak-256 digest of the
    /// `NSTABLE` framing of its bytes.
    pub fn commit(&self) -> (r: Commitment)
        requires
            self@.len() <= u64::MAX,
        ensures
            r@ == keccak256_of(ns_commit_input(self@)),
    {
        let mut tag: Vec<u8> = Vec::new();
        tag.push(78u8);
        tag.push(83u8);
        tag.push(84u8);
        tag.push(65u8);
        tag.push(66u8);
        tag.push(76u8);
        tag.push(69u8);
        proof {
            assert(tag@ =~= tag_nstable_bytes());
        }
        let mut input: Vec<u8> = Vec::new();
        push_constant_str(&mut input, &tag);
        push_var_size_bytes(&mut input, &self.bytes);
        proof {
            assert(input@ =~= ns_commit_input(self@));
        }
        Commitment::of_input(&input)
    }
}

/// The entry list a vector of `(identifier, end offset)` pairs stands for.
pub open spec fn pairs_model(offsets: Seq<(u64, usize)>) -> Seq<(u64, int)> {
    Seq::new(offsets.len(), |j: int| (offsets[j].0, offsets[j].1 as int))
}

/// Every word index an accepted entry reads lies inside the bytes.
proof fn lemma_ns_words_in_range(nsb: Seq<u8>, i: int)
    requires
        0 <= i < ns_count(nsb),
    ensures
        WORD_BYTES * (2 + 2 * i) + WORD_BYTES <= nsb.len(),
{
    let cap = (nsb.len() - WORD_BYTES) / (2 * WORD_BYTES as int);
    vstd::arithmetic::div_mod::lemma_fundamental_div_mod(
        nsb.len() - WORD_BYTES,
        2 * WORD_BYTES as int,
    );
    assert(2 * WORD_BYTES * cap <= nsb.len() - WORD_BYTES);
    assert(i + 1 <= cap);
    vstd::arithmetic::mul::lemma_mul_inequality(i + 1, cap, 2 * WORD_BYTES as int);
    assert((i + 1) * (2 * WORD_BYTES as int) <= cap * (2 * WORD_BYTES as int)) by (nonlinear_arith)
        requires i + 1 <= cap;
    assert(WORD_BYTES * (2 + 2 * i) + WORD_BYTES == WORD_BYTES + (i + 1) * (2 * WORD_BYTES as int));
}

/// Parsing the built table reads back the count and every entry that was
/// written: the namespace-table encoding loses nothing.
pub proof fn lemma_ns_table_round_trip(pairs: Seq<(u64, int)>)
    requires
        ns_pairs_fit(pairs),
    ensures
        ns_count(ns_table_bytes(pairs)) == pairs.len(),
        forall|j: int|
            0 <= j < pairs.len() ==> ns_id_at(ns_table_bytes(pairs), j) == pairs[j].0,
        forall|j: int|
            0 <= j < pairs.len() ==> ns_end_at(ns_table_bytes(pairs), j) == pairs[j].1,
{
    crate::word::lemma_word_round_trip();
    let ws = ns_words(pairs);
    let nsb = ns_table_bytes(pairs);
    let n = pairs.len() as int;
    lemma_words_bytes_len(ws);
    assert(nsb.len() == WORD_BYTES + WORD_BYTES * (2 * n));

    assert(nsb.subrange(0, WORD_BYTES as int) =~= word_bytes(n as Word));
    assert(word_at(nsb, 0) == n as Word);

    assert forall|k: int| 0 <= k < 2 * n implies word_at(nsb, k + 1) == ws[k] by {
        lemma_words_bytes_at(ws, k);
        assert(nsb.subrange(WORD_BYTES * (k + 1), WORD_BYTES * (k + 1) + WORD_BYTES)
            =~= words_bytes(ws).subrange(WORD_BYTES * k, WORD_BYTES * k + WORD_BYTES));
    }

    vstd::arithmetic::div_mod::lemma_div_by_multiple(n, 2 * WORD_BYTES as int);
    assert((nsb.len() - WORD_BYTES) / (2 * WORD_BYTES as int) == n);
    assert(ns_count(nsb) == n);

    assert forall|j: int| 0 <= j < n implies ns_id_at(nsb, j) == pairs[j].0 by {
        assert(word_at(nsb, (2 * j) + 1) == ws[2 * j]);
        assert(ws[2 * j] == pairs[j].0 as Word);
    }
    assert forall|j: int| 0 <= j < n implies ns_end_at(nsb, j) == pairs[j].1 by {
        assert(word_at(nsb, (2 * j + 1) + 1) == ws[2 * j + 1]);
        assert(ws[2 * j + 1] == pairs[j].1 as Word);
    }
}

} // verus!
