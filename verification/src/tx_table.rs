//! The per-namespace transaction table and namespace byte region.
//!
//! A namespace's byte region is `table ++ bodies`: a table of words — a count
//! followed by one cumulative end offset per transaction, offsets relative to
//! the start of `bodies` — and then the transaction bodies concatenated.
//! Parsing clamps every offset it reads so that malformed tables truncate
//! enumeration safely instead of reading out of range.

use vstd::prelude::*;

use crate::word::{
    word_at, word_bytes, word_from_usize, word_of_bytes, push_word, read_word, Word, WORD_BYTES,
};
use crate::BuildError;

verus! {

/// All the sequences of `xs`, concatenated in order.
pub open spec fn concat_seqs<A>(xs: Seq<Seq<A>>) -> Seq<A>
    decreases xs.len(),
{
    if xs.len() == 0 {
        Seq::<A>::empty()
    } else {
        concat_seqs(xs.drop_last()) + xs.last()
    }
}

/// End offset of element `i` inside the concatenation of `xs`
/// (`-1` gives the implicit start offset `0`).
pub open spec fn end_offset<A>(xs: Seq<Seq<A>>, i: int) -> int {
    concat_seqs(xs.take(i + 1)).len() as int
}

/// The views of a vector of byte vectors.
pub open spec fn views_of(s: Seq<Vec<u8>>) -> Seq<Seq<u8>> {
    Seq::new(s.len(), |i: int| s[i]@)
}

pub proof fn lemma_concat_take_succ<A>(xs: Seq<Seq<A>>, i: int)
    requires
        0 <= i < xs.len(),
    ensures
        concat_seqs(xs.take(i + 1)) == concat_seqs(xs.take(i)) + xs[i],
{
    assert(xs.take(i + 1).drop_last() =~= xs.take(i));
    assert(xs.take(i + 1).last() == xs[i]);
}

/// End offsets are non-negative and non-decreasing, and the offset of the
/// final element is the length of the whole concatenation.
pub proof fn lemma_end_offsets_monotone<A>(xs: Seq<Seq<A>>, i: int)
    requires
        -1 <= i < xs.len(),
    ensures
        0 <= end_offset(xs, i) <= concat_seqs(xs).len(),
        i >= 0 ==> end_offset(xs, i - 1) <= end_offset(xs, i),
    decreases xs.len(),
{
    if xs.len() == 0 {
        assert(xs.take(i + 1) =~= xs);
    } else if i == xs.len() - 1 {
        assert(xs.take(i + 1) =~= xs);
        if i >= 0 {
            lemma_concat_take_succ(xs, i);
        }
    } else {
        lemma_end_offsets_monotone(xs.drop_last(), i);
        assert(xs.drop_last().take(i + 1) =~= xs.take(i + 1));
        if i >= 0 {
            assert(xs.drop_last().take(i) =~= xs.take(i));
        }
        assert(concat_seqs(xs.drop_last()).len() <= concat_seqs(xs).len());
    }
}

/// The bytes of element `i` sit exactly between its start and end offsets in
/// the concatenation.
pub proof fn lemma_concat_extract<A>(xs: Seq<Seq<A>>, i: int)
    requires
        0 <= i < xs.len(),
    ensures
        concat_seqs(xs).subrange(end_offset(xs, i - 1), end_offset(xs, i)) == xs[i],
    decreases xs.len(),
{
    lemma_end_offsets_monotone(xs, i - 1);
    lemma_end_offsets_monotone(xs, i);
    if i == xs.len() - 1 {
        assert(xs.take(i) =~= xs.drop_last());
        assert(xs.take(i + 1) =~= xs);
        assert(concat_seqs(xs).subrange(end_offset(xs, i - 1), end_offset(xs, i)) =~= xs[i]);
    } else {
        lemma_concat_extract(xs.drop_last(), i);
        assert(xs.drop_last().take(i + 1) =~= xs.take(i + 1));
        assert(xs.drop_last().take(i) =~= xs.take(i));
        lemma_end_offsets_monotone(xs.drop_last(), i);
        assert(concat_seqs(xs).subrange(end_offset(xs, i - 1), end_offset(xs, i)) =~= concat_seqs(
            xs.drop_last(),
        ).subrange(end_offset(xs, i - 1), end_offset(xs, i)));
    }
}

/// The serialized words of `ws`, concatenated.
pub open spec fn words_bytes(ws: Seq<Word>) -> Seq<u8>
    decreases ws.len(),
{
    if ws.len() == 0 {
        Seq::<u8>::empty()
    } else {
        words_bytes(ws.drop_last()) + word_bytes(ws.last())
    }
}

pub proof fn lemma_words_bytes_len(ws: Seq<Word>)
    ensures
        words_bytes(ws).len() == WORD_BYTES * ws.len(),
    decreases ws.len(),
{
    crate::word::lemma_word_round_trip();
    if ws.len() > 0 {
        lemma_words_bytes_len(ws.drop_last());
    }
}

pub proof fn lemma_words_bytes_push(ws: Seq<Word>, w: Word)
    ensures
        words_bytes(ws.push(w)) == words_bytes(ws) + word_bytes(w),
{
    assert(ws.push(w).drop_last() =~= ws);
    assert(ws.push(w).last() == w);
}

/// Reading word `i` of a serialized word sequence gives back `ws[i]`.
pub proof fn lemma_words_bytes_at(ws: Seq<Word>, i: int)
    requires
        0 <= i < ws.len(),
    ensures
        word_at(words_bytes(ws), i) == ws[i],
    decreases ws.len(),
{
    crate::word::lemma_word_round_trip();
    lemma_words_bytes_len(ws.drop_last());
    if i == ws.len() - 1 {
        assert(words_bytes(ws).subrange(WORD_BYTES * i, WORD_BYTES * i + WORD_BYTES)
            =~= word_bytes(ws.last()));
    } else {
        lemma_words_bytes_at(ws.drop_last(), i);
        assert(words_bytes(ws).subrange(WORD_BYTES * i, WORD_BYTES * i + WORD_BYTES)
            =~= words_bytes(ws.drop_last()).subrange(WORD_BYTES * i, WORD_BYTES * i + WORD_BYTES));
    }
}

/// A serialized table: leading count word, then the table's words.
pub open spec fn table_bytes(ws: Seq<Word>) -> Seq<u8> {
    word_bytes(ws.len() as Word) + words_bytes(ws)
}

/// The transaction table words of one namespace: a cumulative end offset per
/// transaction.
pub open spec fn tx_table_words(txs: Seq<Seq<u8>>) -> Seq<Word> {
    Seq::new(txs.len(), |i: int| end_offset(txs, i) as Word)
}

/// Whether every cell of the namespace's transaction table fits in a word.
pub open spec fn tx_region_fits(txs: Seq<Seq<u8>>) -> bool {
    txs.len() <= Word::MAX && concat_seqs(txs).len() <= Word::MAX
}

/// One namespace's byte region: transaction table, then the bodies.
pub open spec fn tx_region_bytes(txs: Seq<Seq<u8>>) -> Seq<u8> {
    table_bytes(tx_table_words(txs)) + concat_seqs(txs)
}

/// How many transactions a parser accepts from a region: the declared count,
/// capped by the number of table cells the region can actually hold.
pub open spec fn parse_count(region: Seq<u8>) -> int {
    if region.len() < WORD_BYTES {
        0
    } else {
        let declared = word_at(region, 0) as int;
        let cap = (region.len() - WORD_BYTES) / (WORD_BYTES as int);
        if declared <= cap {
            declared
        } else {
            cap
        }
    }
}

/// The bodies region: what follows the parsed table.
pub open spec fn region_body(region: Seq<u8>) -> Seq<u8> {
    region.subrange(WORD_BYTES + WORD_BYTES * parse_count(region), region.len() as int)
}

/// End offset of transaction `i`, clamped into the bodies region and forced
/// monotone, so that a malformed table can never make a slice reach out of
/// range (`-1` gives the implicit start `0`).
pub open spec fn clamped_end(region: Seq<u8>, i: int) -> int
    decreases i + 1,
{
    if i < 0 {
        0
    } else {
        let prev = clamped_end(region, i - 1);
        let raw = word_at(region, i + 1) as int;
        let blen = region_body(region).len() as int;
        let e = if raw > blen {
            blen
        } else {
            raw
        };
        if e < prev {
            prev
        } else {
            e
        }
    }
}

/// The transactions a region parses to, in table order.
pub open spec fn parse_tx_region(region: Seq<u8>) -> Seq<Seq<u8>> {
    Seq::new(
        parse_count(region) as nat,
        |i: int| region_body(region).subrange(clamped_end(region, i - 1), clamped_end(region, i)),
    )
}

pub proof fn lemma_clamped_end_bounds(region: Seq<u8>, i: int)
    requires
        -1 <= i,
    ensures
        0 <= clamped_end(region, i) <= region_body(region).len(),
        i >= 0 ==> clamped_end(region, i - 1) <= clamped_end(region, i),
    decreases i + 1,
{
    if i >= 0 {
        lemma_clamped_end_bounds(region, i - 1);
    }
}

/// Serializing a namespace's transactions and parsing the region back yields
/// the same transactions: the table encoding loses nothing, and clamping
/// never fires on well-formed input.
pub proof fn lemma_tx_region_round_trip(txs: Seq<Seq<u8>>)
    requires
        tx_region_fits(txs),
    ensures
        parse_tx_region(tx_region_bytes(txs)) == txs,
{
    crate::word::lemma_word_round_trip();
    let ws = tx_table_words(txs);
    let n = txs.len() as int;
    let tb = table_bytes(ws);
    let cb = concat_seqs(txs);
    let region = tx_region_bytes(txs);
    lemma_words_bytes_len(ws);
    assert(tb.len() == WORD_BYTES + WORD_BYTES * n);
    assert(region.len() == WORD_BYTES + WORD_BYTES * n + cb.len());

    // the count word reads back as n
    assert(region.subrange(0, WORD_BYTES as int) =~= word_bytes(n as Word));
    assert(word_at(region, 0) == n as Word);

    // each table word reads back as the end offset written there
    assert forall|i: int| 0 <= i < n implies word_at(region, i + 1) == ws[i] by {
        lemma_words_bytes_at(ws, i);
        assert(region.subrange(WORD_BYTES * (i + 1), WORD_BYTES * (i + 1) + WORD_BYTES)
            =~= words_bytes(ws).subrange(WORD_BYTES * i, WORD_BYTES * i + WORD_BYTES));
    }

    // the parsed count is exactly n
    vstd::arithmetic::div_mod::lemma_div_by_multiple(n, WORD_BYTES as int);
    vstd::arithmetic::div_mod::lemma_div_is_ordered(
        WORD_BYTES * n,
        WORD_BYTES * n + cb.len(),
        WORD_BYTES as int,
    );
    assert((region.len() - WORD_BYTES) / (WORD_BYTES as int) >= n);
    assert(parse_count(region) == n);

    // the bodies region is the concatenation that was written
    assert(region_body(region) =~= cb);

    // clamping is the identity on the written offsets
    assert forall|i: int| -1 <= i < n implies #[trigger] clamped_end(region, i) == end_offset(
        txs,
        i,
    ) by {
        lemma_clamped_identity(txs, i);
    }

    // each parsed transaction is the one that was written
    assert forall|i: int| 0 <= i < n implies parse_tx_region(region)[i] == txs[i] by {
        lemma_clamped_identity(txs, i);
        lemma_clamped_identity(txs, i - 1);
        lemma_concat_extract(txs, i);
    }
    assert(parse_tx_region(region) =~= txs);
}

/// On a region built from well-formed transactions, the parser's clamped end
/// offsets coincide with the offsets that were written.
proof fn lemma_clamped_identity(txs: Seq<Seq<u8>>, i: int)
    requires
        tx_region_fits(txs),
        -1 <= i < txs.len(),
        parse_count(tx_region_bytes(txs)) == txs.len(),
        region_body(tx_region_bytes(txs)) == concat_seqs(txs),
        forall|j: int|
            0 <= j < txs.len() ==> word_at(tx_region_bytes(txs), j + 1) == tx_table_words(txs)[j],
    ensures
        clamped_end(tx_region_bytes(txs), i) == end_offset(txs, i),
    decreases i + 1,
{
    let region = tx_region_bytes(txs);
    lemma_end_offsets_monotone(txs, i);
    if i >= 0 {
        lemma_clamped_identity(txs, i - 1);
        lemma_end_offsets_monotone(txs, i - 1);
        assert(word_at(region, i + 1) == tx_table_words(txs)[i]);
        assert(tx_table_words(txs)[i] == end_offset(txs, i) as Word);
    }
}

/// Copies `b[a .. c]` into a fresh vector.
pub fn subrange_to_vec(b: &[u8], a: usize, c: usize) -> (r: Vec<u8>)
    requires
        a <= c <= b@.len(),
    ensures
        r@ == b@.subrange(a as int, c as int),
{
    let mut r: Vec<u8> = Vec::new();
    let mut i: usize = a;
    while i < c
        invariant
            a <= i <= c <= b@.len(),
            r@ == b@.subrange(a as int, i as int),
        decreases c - i,
    {
        r.push(b[i]);
        i = i + 1;
        proof {
            assert(r@ =~= b@.subrange(a as int, i as int));
        }
    }
    r
}

/// Builds one namespace's byte region from its transactions' bodies:
/// the transaction table, then the bodies concatenated. Fails with
/// [`BuildError::WordOverflow`] exactly when the transaction count or a
/// cumulative end offset does not fit in a [`Word`].
pub fn build_tx_region(txs: &Vec<Vec<u8>>) -> (r: Result<Vec<u8>, BuildError>)
    ensures
        r is Ok <==> tx_region_fits(views_of(txs@)),
        r is Ok ==> r->Ok_0@ == tx_region_bytes(views_of(txs@)),
        r is Err ==> r->Err_0 == BuildError::WordOverflow,
{
    let ghost model = views_of(txs@);
    let n = txs.len();
    let count_w = match word_from_usize(n) {
        Ok(w) => w,
        Err(e) => {
            proof {
                lemma_end_offsets_monotone(model, model.len() - 1);
            }
            return Err(e);
        },
    };
    let mut ends: Vec<Word> = Vec::new();
    let mut total: usize = 0;
    let mut i: usize = 0;
    while i < n
        invariant
            i <= n,
            n == txs@.len(),
            model == views_of(txs@),
            n <= Word::MAX,
            total == concat_seqs(model.take(i as int)).len(),
            total <= Word::MAX,
            ends@.len() == i,
            forall|j: int| 0 <= j < i ==> ends@[j] == end_offset(model, j) as Word,
        decreases n - i,
    {
        let tlen = txs[i].len();
        proof {
            lemma_concat_take_succ(model, i as int);
            assert(model[i as int] == txs@[i as int]@);
        }
        if tlen > (Word::MAX as usize) - total {
            proof {
                lemma_monotone_to_full(model, i as int);
            }
            return Err(BuildError::WordOverflow);
        }
        total = total + tlen;
        ends.push(total as Word);
        i = i + 1;
    }
    proof {
        assert(model.take(n as int) =~= model);
    }

    let mut out: Vec<u8> = Vec::new();
    push_word(&mut out, count_w);
    let ghost table_head = word_bytes(n as Word);
    let mut i: usize = 0;
    while i < n
        invariant
            i <= n,
            n == ends@.len(),
            n == txs@.len(),
            model == views_of(txs@),
            forall|j: int| 0 <= j < n ==> ends@[j] == tx_table_words(model)[j],
            out@ == table_head + words_bytes(tx_table_words(model).take(i as int)),
        decreases n - i,
    {
        push_word(&mut out, ends[i]);
        proof {
            let ws = tx_table_words(model);
            assert(ws.take(i + 1) =~= ws.take(i as int).push(ws[i as int]));
            lemma_words_bytes_push(ws.take(i as int), ws[i as int]);
        }
        i = i + 1;
    }
    proof {
        let ws = tx_table_words(model);
        assert(ws.take(n as int) =~= ws);
        assert(out@ == table_bytes(ws));
    }

    let ghost table_part = table_bytes(tx_table_words(model));
    let mut i: usize = 0;
    while i < n
        invariant
            i <= n,
            n == txs@.len(),
            model == views_of(txs@),
            out@ == table_part + concat_seqs(model.take(i as int)),
        decreases n - i,
    {
        out.extend_from_slice(txs[i].as_slice());
        proof {
            lemma_concat_take_succ(model, i as int);
            assert(model[i as int] == txs@[i as int]@);
            assert(out@ =~= table_part + concat_seqs(model.take(i + 1)));
        }
        i = i + 1;
    }
    proof {
        assert(model.take(n as int) =~= model);
        assert(out@ == tx_region_bytes(model));
    }
    Ok(out)
}

/// A cumulative end offset past the word's capacity at any prefix means the
/// whole concatenation is past it too.
proof fn lemma_monotone_to_full(xs: Seq<Seq<u8>>, i: int)
    requires
        0 <= i < xs.len(),
    ensures
        concat_seqs(xs.take(i + 1)).len() <= concat_seqs(xs).len(),
    decreases xs.len(),
{
    lemma_end_offsets_monotone(xs, i);
}

/// Parses one namespace's byte region into its transactions' bodies, exactly
/// as [`parse_tx_region`] describes: out-of-range offsets are clamped, so a
/// malformed region truncates safely.
pub fn parse_region_txs(region: &[u8]) -> (r: Vec<Vec<u8>>)
    ensures
        views_of(r@) == parse_tx_region(region@),
{
    let rlen = region.len();
    if rlen < WORD_BYTES {
        let r: Vec<Vec<u8>> = Vec::new();
        proof {
            assert(views_of(r@) =~= parse_tx_region(region@));
        }
        return r;
    }
    let declared = read_word(region, 0) as usize;
    let cap = (rlen - WORD_BYTES) / WORD_BYTES;
    let count = if declared <= cap {
        declared
    } else {
        cap
    };
    proof {
        assert(region@.subrange(0, WORD_BYTES as int) =~= region@.subrange(0, WORD_BYTES as int));
        vstd::arithmetic::div_mod::lemma_fundamental_div_mod(
            rlen - WORD_BYTES,
            WORD_BYTES as int,
        );
        assert(count == parse_count(region@));
        assert(WORD_BYTES + WORD_BYTES * count <= rlen);
    }
    let body_start = WORD_BYTES + WORD_BYTES * count;
    let body = subrange_to_vec(region, body_start, rlen);
    proof {
        assert(body@ == region_body(region@));
    }
    let mut out: Vec<Vec<u8>> = Vec::new();
    let mut prev: usize = 0;
    let mut i: usize = 0;
    while i < count
        invariant
            i <= count,
            rlen == region@.len(),
            count == parse_count(region@),
            WORD_BYTES + WORD_BYTES * count <= rlen,
            body@ == region_body(region@),
            prev == clamped_end(region@, i as int - 1),
            prev <= body@.len(),
            out@.len() == i,
            forall|j: int| 0 <= j < i ==> out@[j]@ == parse_tx_region(region@)[j],
        decreases count - i,
    {
        proof {
            lemma_clamped_end_bounds(region@, i as int);
        }
        let raw = read_word(region, WORD_BYTES * (i + 1)) as usize;
        let blen = body.len();
        let e0 = if raw > blen {
            blen
        } else {
            raw
        };
        let e = if e0 < prev {
            prev
        } else {
            e0
        };
        out.push(subrange_to_vec(body.as_slice(), prev, e));
        prev = e;
        i = i + 1;
    }
    proof {
        assert(views_of(out@) =~= parse_tx_region(region@));
    }
    out
}

} // verus!
