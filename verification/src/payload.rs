//! The block payload: assembly from transactions, decoding, commitments.
//!
//! A payload's raw bytes are the concatenation of per-namespace regions, one
//! per namespace in order of first appearance; each region is a transaction
//! table followed by the namespace's transaction bodies. The namespace table
//! travels beside the raw bytes as standalone metadata.

use vstd::prelude::*;

use crate::commitment::{sha256_of, push_u64_le, BuilderCommitment, Commitment, keccak256_of};
use crate::ns_table::{
    ns_count, ns_end_at, ns_id_at, ns_pair_fits, ns_pairs_fit, ns_table_bytes, pairs_model,
    NsTable,
};
use crate::transaction::{tx_commit_input, Transaction};
use crate::tx_table::{
    build_tx_region, concat_seqs, end_offset, lemma_concat_extract, lemma_concat_take_succ,
    lemma_end_offsets_monotone, parse_region_txs, parse_tx_region, subrange_to_vec,
    tx_region_bytes, tx_region_fits, views_of,
};
use crate::word::Word;
use crate::BuildError;

verus! {

/// What a sequence of transactions is to the specifications: namespace
/// identifier and payload bytes, in order.
pub open spec fn txs_model(txs: Seq<Transaction>) -> Seq<(u64, Seq<u8>)> {
    Seq::new(txs.len(), |i: int| txs[i]@)
}

/// The index of the group carrying namespace `ns`, or `-1` when none does.
pub open spec fn find_group(gs: Seq<(u64, Seq<Seq<u8>>)>, ns: u64) -> int
    decreases gs.len(),
{
    if gs.len() == 0 {
        -1
    } else if gs.last().0 == ns {
        gs.len() - 1
    } else {
        find_group(gs.drop_last(), ns)
    }
}

/// Transactions grouped by namespace: groups stand in order of first
/// appearance of their namespace, and each group holds its transactions'
/// payloads in the order they were supplied. This is the canonical order of
/// the whole codec.
pub open spec fn grouped(txs: Seq<(u64, Seq<u8>)>) -> Seq<(u64, Seq<Seq<u8>>)>
    decreases txs.len(),
{
    if txs.len() == 0 {
        Seq::empty()
    } else {
        let pre = grouped(txs.drop_last());
        let t = txs.last();
        let k = find_group(pre, t.0);
        if k < 0 {
            pre.push((t.0, seq![t.1]))
        } else {
            pre.update(k, (pre[k].0, pre[k].1.push(t.1)))
        }
    }
}

/// No two groups carry the same namespace.
pub open spec fn distinct_ids(gs: Seq<(u64, Seq<Seq<u8>>)>) -> bool {
    forall|j: int, k: int| 0 <= j < k < gs.len() ==> (#[trigger] gs[j]).0 != (#[trigger] gs[k]).0
}

pub proof fn lemma_find_group_props(gs: Seq<(u64, Seq<Seq<u8>>)>, ns: u64)
    ensures
        find_group(gs, ns) >= -1,
        find_group(gs, ns) == -1 ==> forall|j: int| 0 <= j < gs.len() ==> (#[trigger] gs[j]).0 != ns,
        find_group(gs, ns) >= 0 ==> find_group(gs, ns) < gs.len() && gs[find_group(gs, ns)].0 == ns,
    decreases gs.len(),
{
    if gs.len() > 0 && gs.last().0 != ns {
        lemma_find_group_props(gs.drop_last(), ns);
        if find_group(gs, ns) == -1 {
            assert forall|j: int| 0 <= j < gs.len() implies (#[trigger] gs[j]).0 != ns by {
                if j < gs.len() - 1 {
                    assert(gs.drop_last()[j] == gs[j]);
                }
            }
        }
    }
}

/// Under distinct namespaces, any index whose group carries `ns` is the one
/// `find_group` names.
pub proof fn lemma_find_group_match(gs: Seq<(u64, Seq<Seq<u8>>)>, ns: u64, k: int)
    requires
        distinct_ids(gs),
        0 <= k < gs.len(),
        gs[k].0 == ns,
    ensures
        find_group(gs, ns) == k,
    decreases gs.len(),
{
    if gs.last().0 == ns {
        assert(k == gs.len() - 1);
    } else {
        lemma_find_group_match(gs.drop_last(), ns, k);
    }
}

/// Grouping never makes two groups with one namespace.
pub proof fn lemma_grouped_distinct(txs: Seq<(u64, Seq<u8>)>)
    ensures
        distinct_ids(grouped(txs)),
    decreases txs.len(),
{
    if txs.len() > 0 {
        lemma_grouped_distinct(txs.drop_last());
        let pre = grouped(txs.drop_last());
        let t = txs.last();
        let k = find_group(pre, t.0);
        lemma_find_group_props(pre, t.0);
        let gs = grouped(txs);
        if k < 0 {
            assert forall|a: int, b: int|
                0 <= a < b < gs.len() implies (#[trigger] gs[a]).0 != (#[trigger] gs[b]).0 by {
                if b < pre.len() {
                    assert(gs[a] == pre[a] && gs[b] == pre[b]);
                } else {
                    assert(gs[a] == pre[a]);
                    assert(gs[b].0 == t.0);
                    assert(pre[a].0 != t.0);
                }
            }
        } else {
            assert forall|a: int, b: int|
                0 <= a < b < gs.len() implies (#[trigger] gs[a]).0 != (#[trigger] gs[b]).0 by {
                assert(gs[a].0 == pre[a].0);
                assert(gs[b].0 == pre[b].0);
            }
        }
    }
}

/// The serialized byte region of each group, in group order.
pub open spec fn regions_of(gs: Seq<(u64, Seq<Seq<u8>>)>) -> Seq<Seq<u8>> {
    Seq::new(gs.len(), |j: int| tx_region_bytes(gs[j].1))
}

/// The raw payload bytes of a grouped transaction set: its regions
/// concatenated.
pub open spec fn payload_bytes_of(gs: Seq<(u64, Seq<Seq<u8>>)>) -> Seq<u8> {
    concat_seqs(regions_of(gs))
}

/// The namespace-table entries of a grouped transaction set: each group's
/// namespace with its region's absolute end offset.
pub open spec fn ns_pairs_of(gs: Seq<(u64, Seq<Seq<u8>>)>) -> Seq<(u64, int)> {
    Seq::new(gs.len(), |j: int| (gs[j].0, end_offset(regions_of(gs), j)))
}

/// Whether a grouped transaction set can be encoded at all: every table cell
/// — the namespace count, each namespace identifier, each region-local
/// transaction offset and each absolute region end offset — fits in a
/// [`Word`].
pub open spec fn groups_fit(gs: Seq<(u64, Seq<Seq<u8>>)>) -> bool {
    &&& gs.len() <= Word::MAX
    &&& forall|j: int|
        0 <= j < gs.len() ==> (#[trigger] gs[j]).0 <= Word::MAX && tx_region_fits(gs[j].1)
    &&& payload_bytes_of(gs).len() <= Word::MAX
}

/// A namespace's end offset, clamped into the raw payload and forced
/// monotone, so a malformed table can never make a region reach out of
/// range (`-1` gives the implicit start `0`).
pub open spec fn ns_clamped_end(nsb: Seq<u8>, plen: int, j: int) -> int
    decreases j + 1,
{
    if j < 0 {
        0
    } else {
        let prev = ns_clamped_end(nsb, plen, j - 1);
        let raw = ns_end_at(nsb, j) as int;
        let e = if raw > plen {
            plen
        } else {
            raw
        };
        if e < prev {
            prev
        } else {
            e
        }
    }
}

pub proof fn lemma_ns_clamped_bounds(nsb: Seq<u8>, plen: int, j: int)
    requires
        -1 <= j,
        0 <= plen,
    ensures
        0 <= ns_clamped_end(nsb, plen, j) <= plen,
        j >= 0 ==> ns_clamped_end(nsb, plen, j - 1) <= ns_clamped_end(nsb, plen, j),
    decreases j + 1,
{
    if j >= 0 {
        lemma_ns_clamped_bounds(nsb, plen, j - 1);
    }
}

/// The byte region the namespace table assigns to namespace `j` of `raw`.
pub open spec fn ns_region_at(raw: Seq<u8>, nsb: Seq<u8>, j: int) -> Seq<u8> {
    raw.subrange(
        ns_clamped_end(nsb, raw.len() as int, j - 1),
        ns_clamped_end(nsb, raw.len() as int, j),
    )
}

/// A group's transactions with its namespace identifier attached to each.
pub open spec fn with_id(id: u64, bodies: Seq<Seq<u8>>) -> Seq<(u64, Seq<u8>)> {
    Seq::new(bodies.len(), |i: int| (id, bodies[i]))
}

/// What decoding yields per namespace, in table order.
pub open spec fn decoded_groups(raw: Seq<u8>, nsb: Seq<u8>) -> Seq<Seq<(u64, Seq<u8>)>> {
    Seq::new(
        ns_count(nsb) as nat,
        |j: int| with_id(ns_id_at(nsb, j) as u64, parse_tx_region(ns_region_at(raw, nsb, j))),
    )
}

/// Every transaction a payload and its namespace table decode to, in
/// canonical order: namespace order first, intra-namespace order second.
pub open spec fn decode_payload(raw: Seq<u8>, nsb: Seq<u8>) -> Seq<(u64, Seq<u8>)> {
    concat_seqs(decoded_groups(raw, nsb))
}

/// A grouped transaction set flattened back to single transactions in
/// canonical order.
pub open spec fn flatten_groups(gs: Seq<(u64, Seq<Seq<u8>>)>) -> Seq<(u64, Seq<u8>)> {
    concat_seqs(Seq::new(gs.len(), |j: int| with_id(gs[j].0, gs[j].1)))
}

/// The framing whose SHA-256 digest is the builder commitment: the lengths
/// of the raw payload, the payload's own namespace table and the standalone
/// metadata, each as 64-bit little-endian, then the three byte strings
/// themselves. The table appears twice by design — a forward-compatibility
/// seam — and both copies are digested.
pub open spec fn builder_commit_input(raw: Seq<u8>, nsb: Seq<u8>, meta: Seq<u8>) -> Seq<u8> {
    vstd::bytes::spec_u64_to_le_bytes(raw.len() as u64) + vstd::bytes::spec_u64_to_le_bytes(
        nsb.len() as u64,
    ) + vstd::bytes::spec_u64_to_le_bytes(meta.len() as u64) + raw + nsb + meta
}

/// The grouped transaction set a pair of parallel vectors stands for:
/// namespace identifiers beside their groups' payload lists.
pub open spec fn groups_model(ids: Seq<u64>, gs: Seq<Vec<Vec<u8>>>) -> Seq<(u64, Seq<Seq<u8>>)> {
    Seq::new(ids.len(), |j: int| (ids[j], views_of(gs[j]@)))
}

/// A prefix of a concatenation is no longer than the whole.
proof fn lemma_prefix_le_full<A>(xs: Seq<Seq<A>>, j: int)
    requires
        0 <= j <= xs.len(),
    ensures
        concat_seqs(xs.take(j)).len() <= concat_seqs(xs).len(),
{
    if j == 0 {
        assert(xs.take(0) =~= Seq::<Seq<A>>::empty());
    } else {
        lemma_end_offsets_monotone(xs, j - 1);
    }
}

/// When the built entry list does not fit the word width even though every
/// end offset does, the grouped set itself cannot be encoded.
proof fn lemma_unfit_pairs(gs: Seq<(u64, Seq<Seq<u8>>)>, offsets: Seq<(u64, usize)>)
    requires
        pairs_model(offsets) == ns_pairs_of(gs),
        !ns_pairs_fit(pairs_model(offsets)),
        forall|m: int| 0 <= m < offsets.len() ==> (#[trigger] offsets[m]).1 <= Word::MAX,
    ensures
        !groups_fit(gs),
{
    let pairs = ns_pairs_of(gs);
    if pairs.len() > Word::MAX {
    } else {
        let m = choose|m: int| 0 <= m < pairs.len() && !ns_pair_fits(#[trigger] pairs[m]);
        assert(pairs[m] == (gs[m].0, end_offset(regions_of(gs), m)));
        assert(pairs[m].1 == offsets[m].1 as int);
        assert(gs[m].0 > Word::MAX);
    }
}

/// Genesis is owed success: the empty transaction set always fits, so
/// building from no transactions can never fail.
pub proof fn lemma_empty_fits()
    ensures
        groups_fit(grouped(Seq::<(u64, Seq<u8>)>::empty())),
        grouped(Seq::<(u64, Seq<u8>)>::empty()) == Seq::<(u64, Seq<Seq<u8>>)>::empty(),
        payload_bytes_of(grouped(Seq::<(u64, Seq<u8>)>::empty())).len() == 0,
{
    let e = Seq::<(u64, Seq<u8>)>::empty();
    assert(grouped(e) == Seq::<(u64, Seq<Seq<u8>>)>::empty());
    assert(regions_of(grouped(e)) =~= Seq::<Seq<u8>>::empty());
    assert(payload_bytes_of(grouped(e)).len() == 0);
}

/// The table built from no entries parses as zero namespaces.
proof fn lemma_empty_decodes(nsb: Seq<u8>)
    requires
        nsb == ns_table_bytes(Seq::<(u64, int)>::empty()),
    ensures
        ns_count(nsb) == 0,
{
    crate::ns_table::lemma_ns_table_round_trip(Seq::<(u64, int)>::empty());
}

/// On a payload built from a well-formed grouped set, the decoder's clamped
/// namespace end offsets coincide with the offsets that were written.
proof fn lemma_ns_clamp_identity(gs: Seq<(u64, Seq<Seq<u8>>)>, j: int)
    requires
        groups_fit(gs),
        -1 <= j < gs.len(),
        ns_count(ns_table_bytes(ns_pairs_of(gs))) == gs.len(),
        forall|m: int|
            0 <= m < gs.len() ==> ns_end_at(ns_table_bytes(ns_pairs_of(gs)), m) == ns_pairs_of(
                gs,
            )[m].1,
    ensures
        ns_clamped_end(ns_table_bytes(ns_pairs_of(gs)), payload_bytes_of(gs).len() as int, j)
            == end_offset(regions_of(gs), j),
    decreases j + 1,
{
    let regions = regions_of(gs);
    lemma_end_offsets_monotone(regions, j);
    if j >= 0 {
        lemma_ns_clamp_identity(gs, j - 1);
        lemma_end_offsets_monotone(regions, j - 1);
        assert(ns_pairs_of(gs)[j].1 == end_offset(regions, j));
    }
}

/// Round trip: decoding a payload built from any well-formed grouped
/// transaction set yields exactly that set's transactions, grouped by
/// namespace in first-appearance order, each group in its original relative
/// order — the canonical order [`grouped`] defines.
pub proof fn lemma_round_trip(txs: Seq<(u64, Seq<u8>)>)
    requires
        groups_fit(grouped(txs)),
    ensures
        decode_payload(
            payload_bytes_of(grouped(txs)),
            ns_table_bytes(ns_pairs_of(grouped(txs))),
        ) == flatten_groups(grouped(txs)),
{
    let gs = grouped(txs);
    let regions = regions_of(gs);
    let raw = payload_bytes_of(gs);
    let pairs = ns_pairs_of(gs);
    let nsb = ns_table_bytes(pairs);
    let n = gs.len() as int;

    assert forall|m: int| 0 <= m < n implies ns_pair_fits(#[trigger] pairs[m]) by {
        lemma_end_offsets_monotone(regions, m);
        assert(gs[m].0 <= Word::MAX);
    }
    assert(ns_pairs_fit(pairs));
    crate::ns_table::lemma_ns_table_round_trip(pairs);

    assert forall|j: int| 0 <= j < n implies decoded_groups(raw, nsb)[j] == with_id(
        gs[j].0,
        gs[j].1,
    ) by {
        lemma_ns_clamp_identity(gs, j);
        lemma_ns_clamp_identity(gs, j - 1);
        lemma_concat_extract(regions, j);
        assert(ns_region_at(raw, nsb, j) == regions[j]);
        assert(regions[j] == tx_region_bytes(gs[j].1));
        assert(tx_region_fits(gs[j].1));
        crate::tx_table::lemma_tx_region_round_trip(gs[j].1);
        assert(ns_id_at(nsb, j) == pairs[j].0);
        assert(ns_id_at(nsb, j) as u64 == gs[j].0);
    }
    assert(decoded_groups(raw, nsb) =~= Seq::new(n as nat, |j: int| with_id(gs[j].0, gs[j].1)));
}

/// Appending to the sequence at index `k` adds exactly that element to the
/// concatenation, as a multiset.
proof fn lemma_concat_update_push_multiset<A>(xs: Seq<Seq<A>>, k: int, t: A)
    requires
        0 <= k < xs.len(),
    ensures
        concat_seqs(xs.update(k, xs[k].push(t))).to_multiset() =~= concat_seqs(
            xs,
        ).to_multiset().insert(t),
    decreases xs.len(),
{
    broadcast use vstd::seq_lib::lemma_multiset_commutative;

    broadcast use vstd::multiset::group_multiset_axioms;

    let ys = xs.update(k, xs[k].push(t));
    if k == xs.len() - 1 {
        assert(ys.drop_last() =~= xs.drop_last());
        assert(ys.last() == xs[k].push(t));
        assert(xs.last() == xs[k]);
        assert(concat_seqs(ys) =~= concat_seqs(xs).push(t));
        concat_seqs(xs).to_multiset_ensures();
        assert(concat_seqs(xs).push(t).to_multiset() =~= concat_seqs(xs).to_multiset().insert(t));
    } else {
        assert(ys.drop_last() =~= xs.drop_last().update(k, xs[k].push(t)));
        assert(xs.drop_last()[k] == xs[k]);
        lemma_concat_update_push_multiset(xs.drop_last(), k, t);
        assert(ys.last() == xs.last());
        let a = concat_seqs(xs.drop_last());
        let b = xs.last();
        assert((a + b).to_multiset() =~= a.to_multiset().add(b.to_multiset()));
        let a2 = concat_seqs(ys.drop_last());
        assert((a2 + b).to_multiset() =~= a2.to_multiset().add(b.to_multiset()));
        assert(a2.to_multiset() =~= a.to_multiset().insert(t));
        assert(a.to_multiset().insert(t).add(b.to_multiset()) =~= a.to_multiset().add(
            b.to_multiset(),
        ).insert(t));
    }
}

/// Grouping is a permutation: the canonical regrouping carries exactly the
/// transactions that were supplied — the same multiset, nothing lost,
/// nothing invented.
pub proof fn lemma_grouping_is_permutation(txs: Seq<(u64, Seq<u8>)>)
    ensures
        flatten_groups(grouped(txs)).to_multiset() =~= txs.to_multiset(),
    decreases txs.len(),
{
    if txs.len() == 0 {
        assert(Seq::new(0, |j: int| with_id(grouped(txs)[j].0, grouped(txs)[j].1)) =~= Seq::<
            Seq<(u64, Seq<u8>)>,
        >::empty());
        assert(flatten_groups(grouped(txs)) =~= txs);
    } else {
        lemma_grouping_is_permutation(txs.drop_last());
        let pre = grouped(txs.drop_last());
        let t = txs.last();
        let k = find_group(pre, t.0);
        lemma_find_group_props(pre, t.0);
        let gs = grouped(txs);
        let mapped_pre = Seq::new(pre.len(), |j: int| with_id(pre[j].0, pre[j].1));
        let mapped_gs = Seq::new(gs.len(), |j: int| with_id(gs[j].0, gs[j].1));
        assert(txs.drop_last().push(t) =~= txs);
        txs.drop_last().to_multiset_ensures();
        assert(txs.drop_last().push(t).to_multiset() =~= txs.drop_last().to_multiset().insert(t));
        assert(txs.to_multiset() =~= txs.drop_last().to_multiset().insert(t));
        assert(flatten_groups(pre) == concat_seqs(mapped_pre)) by {
            assert(Seq::new(pre.len(), |j: int| with_id(pre[j].0, pre[j].1)) =~= mapped_pre);
        }
        assert(flatten_groups(gs) == concat_seqs(mapped_gs)) by {
            assert(Seq::new(gs.len(), |j: int| with_id(gs[j].0, gs[j].1)) =~= mapped_gs);
        }
        if k < 0 {
            assert(with_id(t.0, seq![t.1]) =~= seq![t]);
            assert(mapped_gs =~= mapped_pre.push(seq![t]));
            assert(concat_seqs(mapped_pre.push(seq![t])) == concat_seqs(mapped_pre) + seq![t]) by {
                assert(mapped_pre.push(seq![t]).drop_last() =~= mapped_pre);
            }
            assert(concat_seqs(mapped_pre) + seq![t] =~= concat_seqs(mapped_pre).push(t));
            concat_seqs(mapped_pre).to_multiset_ensures();
            assert(concat_seqs(mapped_pre).push(t).to_multiset() =~= concat_seqs(
                mapped_pre,
            ).to_multiset().insert(t));
            assert(flatten_groups(gs) == concat_seqs(mapped_pre).push(t));
        } else {
            assert(with_id(pre[k].0, pre[k].1.push(t.1)) =~= with_id(pre[k].0, pre[k].1).push(
                (pre[k].0, t.1),
            ));
            assert((pre[k].0, t.1) == t);
            assert(mapped_gs =~= mapped_pre.update(k, mapped_pre[k].push(t)));
            lemma_concat_update_push_multiset(mapped_pre, k, t);
            assert(flatten_groups(gs) == concat_seqs(mapped_pre.update(k, mapped_pre[k].push(t))));
        }
        assert(flatten_groups(gs).to_multiset() =~= flatten_groups(pre).to_multiset().insert(t));
        assert(flatten_groups(pre).to_multiset() =~= txs.drop_last().to_multiset());
        assert(flatten_groups(gs).to_multiset() =~= txs.to_multiset());
    }
}

/// Monotonicity of the namespace table: end offsets are non-decreasing in
/// table order, and the final one is the length of the raw payload.
pub proof fn lemma_ns_table_monotonic(gs: Seq<(u64, Seq<Seq<u8>>)>)
    ensures
        forall|j: int|
            0 < j < gs.len() ==> (#[trigger] ns_pairs_of(gs)[j - 1]).1 <= ns_pairs_of(gs)[j].1,
        gs.len() > 0 ==> ns_pairs_of(gs)[gs.len() - 1].1 == payload_bytes_of(gs).len(),
{
    let regions = regions_of(gs);
    assert forall|j: int|
        0 < j < gs.len() implies (#[trigger] ns_pairs_of(gs)[j - 1]).1 <= ns_pairs_of(gs)[j].1 by {
        lemma_end_offsets_monotone(regions, j);
    }
    if gs.len() > 0 {
        assert(regions.take(gs.len() as int) =~= regions);
    }
}

/// Monotonicity of a transaction table: within one namespace the cumulative
/// end offsets are non-decreasing, and the final one is the length of the
/// namespace's concatenated bodies.
pub proof fn lemma_tx_table_monotonic(bodies: Seq<Seq<u8>>)
    ensures
        forall|i: int|
            0 < i < bodies.len() ==> #[trigger] end_offset(bodies, i - 1) <= end_offset(bodies, i),
        bodies.len() > 0 ==> end_offset(bodies, bodies.len() - 1) == concat_seqs(bodies).len(),
{
    assert forall|i: int|
        0 < i < bodies.len() implies #[trigger] end_offset(bodies, i - 1) <= end_offset(
        bodies,
        i,
    ) by {
        lemma_end_offsets_monotone(bodies, i);
    }
    if bodies.len() > 0 {
        assert(bodies.take(bodies.len() as int) =~= bodies);
    }
}

/// The builder-commitment framing is injective: two distinct triples of raw
/// payload, table bytes and metadata bytes can never frame to the same
/// digest input. Together with the determinism of the digest — the framing
/// and hash depend on their byte inputs alone — this is what makes the
/// builder commitment a faithful content digest; that distinct inputs also
/// yield distinct digests is the hash's collision resistance, which no
/// specification here claims.
pub proof fn lemma_builder_input_injective(
    r1: Seq<u8>,
    n1: Seq<u8>,
    m1: Seq<u8>,
    r2: Seq<u8>,
    n2: Seq<u8>,
    m2: Seq<u8>,
)
    requires
        builder_commit_input(r1, n1, m1) == builder_commit_input(r2, n2, m2),
        r1.len() <= u64::MAX,
        n1.len() <= u64::MAX,
        m1.len() <= u64::MAX,
        r2.len() <= u64::MAX,
        n2.len() <= u64::MAX,
        m2.len() <= u64::MAX,
    ensures
        r1 == r2,
        n1 == n2,
        m1 == m2,
{
    vstd::bytes::lemma_auto_spec_u64_to_from_le_bytes();
    let a = builder_commit_input(r1, n1, m1);
    let b = builder_commit_input(r2, n2, m2);
    assert(a.subrange(0, 8) =~= vstd::bytes::spec_u64_to_le_bytes(r1.len() as u64));
    assert(b.subrange(0, 8) =~= vstd::bytes::spec_u64_to_le_bytes(r2.len() as u64));
    assert(r1.len() == r2.len()) by {
        assert(vstd::bytes::spec_u64_from_le_bytes(
            vstd::bytes::spec_u64_to_le_bytes(r1.len() as u64),
        ) == r1.len() as u64);
        assert(vstd::bytes::spec_u64_from_le_bytes(
            vstd::bytes::spec_u64_to_le_bytes(r2.len() as u64),
        ) == r2.len() as u64);
    }
    assert(a.subrange(8, 16) =~= vstd::bytes::spec_u64_to_le_bytes(n1.len() as u64));
    assert(b.subrange(8, 16) =~= vstd::bytes::spec_u64_to_le_bytes(n2.len() as u64));
    assert(n1.len() == n2.len()) by {
        assert(vstd::bytes::spec_u64_from_le_bytes(
            vstd::bytes::spec_u64_to_le_bytes(n1.len() as u64),
        ) == n1.len() as u64);
        assert(vstd::bytes::spec_u64_from_le_bytes(
            vstd::bytes::spec_u64_to_le_bytes(n2.len() as u64),
        ) == n2.len() as u64);
    }
    assert(a.subrange(16, 24) =~= vstd::bytes::spec_u64_to_le_bytes(m1.len() as u64));
    assert(b.subrange(16, 24) =~= vstd::bytes::spec_u64_to_le_bytes(m2.len() as u64));
    assert(m1.len() == m2.len()) by {
        assert(vstd::bytes::spec_u64_from_le_bytes(
            vstd::bytes::spec_u64_to_le_bytes(m1.len() as u64),
        ) == m1.len() as u64);
        assert(vstd::bytes::spec_u64_from_le_bytes(
            vstd::bytes::spec_u64_to_le_bytes(m2.len() as u64),
        ) == m2.len() as u64);
    }
    let rl = r1.len() as int;
    let nl = n1.len() as int;
    let ml = m1.len() as int;
    assert(r1 =~= a.subrange(24, 24 + rl));
    assert(r2 =~= b.subrange(24, 24 + rl));
    assert(n1 =~= a.subrange(24 + rl, 24 + rl + nl));
    assert(n2 =~= b.subrange(24 + rl, 24 + rl + nl));
    assert(m1 =~= a.subrange(24 + rl + nl, 24 + rl + nl + ml));
    assert(m2 =~= b.subrange(24 + rl + nl, 24 + rl + nl + ml));
}

/// The chain-state capability block construction consults. Reserved for
/// future size-limit enforcement: today it carries nothing, and the encoding
/// does not depend on it.
pub struct ChainState {}

impl ChainState {
    /// A stand-in chain state, for paths — like genesis — where no real
    /// chain state exists yet.
    pub fn mock() -> (r: ChainState) {
        ChainState {  }
    }
}

/// A block payload: raw encoded bytes plus their namespace table. Immutable
/// once built; decoding trusts the table only as far as clamped reads allow.
#[derive(Debug)]
pub struct Payload {
    raw_payload: Vec<u8>,
    ns_table: NsTable,
}

impl Payload {
    /// The raw payload bytes, as a specification-level sequence.
    pub closed spec fn raw(&self) -> Seq<u8> {
        self.raw_payload@
    }

    /// The serialized namespace table the payload carries.
    pub closed spec fn table(&self) -> Seq<u8> {
        self.ns_table@
    }

    /// Reassembles a payload received from a peer: raw bytes plus the
    /// metadata said to be its namespace table. Infallible; the table is
    /// trusted, and later reads clamp rather than validate.
    pub fn from_bytes(encoded_transactions: &[u8], metadata: &NsTable) -> (r: Payload)
        ensures
            r.raw() == encoded_transactions@,
            r.table() == metadata@,
    {
        let len = encoded_transactions.len();
        Payload {
            raw_payload: subrange_to_vec(encoded_transactions, 0, len),
            ns_table: metadata.clone_table(),
        }
    }

    /// The payload's raw bytes, verbatim: no added framing.
    pub fn encode(&self) -> (r: Vec<u8>)
        ensures
            r@ == self.raw(),
    {
        let len = self.raw_payload.len();
        subrange_to_vec(self.raw_payload.as_slice(), 0, len)
    }

    /// The namespace table the payload carries.
    pub fn get_ns_table(&self) -> (r: &NsTable)
        ensures
            r@ == self.table(),
    {
        &self.ns_table
    }

    /// Builds a payload from transactions supplied in any order, together
    /// with its namespace table — returned once embedded in the payload and
    /// once standalone, as the metadata the protocol persists separately.
    ///
    /// Transactions are grouped by namespace in order of first appearance,
    /// each group keeping its transactions' relative order; each group
    /// becomes one byte region; the namespace table records each region's
    /// absolute end offset. `_state` is consulted only as an opaque
    /// capability and does not affect the output.
    ///
    /// Fails with [`BuildError::WordOverflow`] exactly when some table cell
    /// — a count, a namespace identifier or an end offset — does not fit in
    /// a [`Word`]: a block-building failure the proposer must not retry.
    pub fn from_transactions(txs: &Vec<Transaction>, _state: &ChainState) -> (r: Result<
        (Payload, NsTable),
        BuildError,
    >)
        ensures
            r is Ok <==> groups_fit(grouped(txs_model(txs@))),
            r is Ok ==> r->Ok_0.0.raw() == payload_bytes_of(grouped(txs_model(txs@))),
            r is Ok ==> r->Ok_0.0.table() == ns_table_bytes(ns_pairs_of(grouped(txs_model(txs@)))),
            r is Ok ==> r->Ok_0.1@ == r->Ok_0.0.table(),
            r is Err ==> r->Err_0 == BuildError::WordOverflow,
    {
        let ghost model = txs_model(txs@);
        let n_txs = txs.len();

        // group by namespace, first appearance first
        let mut ids: Vec<u64> = Vec::new();
        let mut groups: Vec<Vec<Vec<u8>>> = Vec::new();
        let mut i: usize = 0;
        while i < n_txs
            invariant
                i <= n_txs,
                n_txs == txs@.len(),
                model == txs_model(txs@),
                ids@.len() == groups@.len(),
                groups_model(ids@, groups@) == grouped(model.take(i as int)),
            decreases n_txs - i,
        {
            let ghost gpre = grouped(model.take(i as int));
            proof {
                lemma_grouped_distinct(model.take(i as int));
                assert(model.take(i + 1).drop_last() =~= model.take(i as int));
                assert(model.take(i + 1).last() == txs@[i as int]@);
            }
            let tx = &txs[i];
            let ns = tx.namespace();
            let plen = tx.payload().len();
            let p = subrange_to_vec(tx.payload().as_slice(), 0, plen);
            proof {
                assert(p@ =~= txs@[i as int]@.1);
                assert(model.take(i + 1).last().0 == ns);
                assert(model.take(i + 1).last().1 == p@);
            }
            let n_groups = ids.len();
            let mut k: usize = 0;
            while k < n_groups && ids[k] != ns
                invariant
                    k <= n_groups,
                    n_groups == ids@.len(),
                    forall|m: int| 0 <= m < k ==> ids@[m] != ns,
                decreases n_groups - k,
            {
                k = k + 1;
            }
            if k < n_groups {
                proof {
                    assert(gpre[k as int].0 == ns);
                    lemma_find_group_match(gpre, ns, k as int);
                }
                let mut g = groups.remove(k);
                g.push(p);
                groups.insert(k, g);
                proof {
                    let gnext = grouped(model.take(i + 1));
                    assert(gnext == gpre.update(
                        k as int,
                        (gpre[k as int].0, gpre[k as int].1.push(p@)),
                    ));
                    assert forall|j: int| 0 <= j < ids@.len() implies groups_model(ids@, groups@)[j]
                        == gnext[j] by {
                        if j == k {
                            assert(views_of(groups@[j]@) =~= gpre[j].1.push(p@));
                        }
                    }
                    assert(groups_model(ids@, groups@) =~= gnext);
                }
            } else {
                proof {
                    lemma_find_group_props(gpre, ns);
                    assert(find_group(gpre, ns) == -1) by {
                        if find_group(gpre, ns) >= 0 {
                            assert(ids@[find_group(gpre, ns)] == ns);
                        }
                    }
                }
                let mut single: Vec<Vec<u8>> = Vec::new();
                single.push(p);
                ids.push(ns);
                groups.push(single);
                proof {
                    let gnext = grouped(model.take(i + 1));
                    assert forall|j: int| 0 <= j < ids@.len() implies groups_model(ids@, groups@)[j]
                        == gnext[j] by {
                        if j == ids@.len() - 1 {
                            assert(views_of(groups@[j]@) =~= seq![p@]);
                        }
                    }
                    assert(groups_model(ids@, groups@) =~= gnext);
                }
            }
            i = i + 1;
        }
        proof {
            assert(model.take(n_txs as int) =~= model);
        }
        let ghost big_g = grouped(model);

        // assemble the regions and record each namespace's end offset
        let n = ids.len();
        let mut raw: Vec<u8> = Vec::new();
        let mut offsets: Vec<(u64, usize)> = Vec::new();
        let mut j: usize = 0;
        while j < n
            invariant
                j <= n,
                n == ids@.len() == groups@.len(),
                groups_model(ids@, groups@) == big_g,
                big_g == grouped(txs_model(txs@)),
                raw@ == concat_seqs(regions_of(big_g).take(j as int)),
                raw@.len() <= Word::MAX,
                offsets@.len() == j,
                forall|m: int| 0 <= m < j ==> (#[trigger] offsets@[m]).1 <= Word::MAX,
                forall|m: int| 0 <= m < j ==> tx_region_fits(#[trigger] big_g[m].1),
                forall|m: int|
                    0 <= m < j ==> #[trigger] offsets@[m] == (
                        big_g[m].0,
                        end_offset(regions_of(big_g), m) as usize,
                    ),
            decreases n - j,
        {
            proof {
                assert(views_of(groups@[j as int]@) == big_g[j as int].1);
            }
            let region = match build_tx_region(&groups[j]) {
                Ok(r) => r,
                Err(e) => {
                    proof {
                        assert(!tx_region_fits(big_g[j as int].1));
                    }
                    return Err(e);
                },
            };
            proof {
                lemma_concat_take_succ(regions_of(big_g), j as int);
            }
            if region.len() > (Word::MAX as usize) - raw.len() {
                proof {
                    lemma_end_offsets_monotone(regions_of(big_g), regions_of(big_g).len() - 1);
                    lemma_prefix_le_full(regions_of(big_g), j + 1);
                }
                return Err(BuildError::WordOverflow);
            }
            raw.extend_from_slice(region.as_slice());
            proof {
                assert(raw@ =~= concat_seqs(regions_of(big_g).take(j + 1)));
            }
            offsets.push((ids[j], raw.len()));
            proof {
                assert(groups_model(ids@, groups@)[j as int].0 == ids@[j as int]);
                assert(ids@[j as int] == big_g[j as int].0);
                assert(raw@.len() == end_offset(regions_of(big_g), j as int));
                assert(offsets@[j as int] == (
                    big_g[j as int].0,
                    end_offset(regions_of(big_g), j as int) as usize,
                ));
            }
            j = j + 1;
        }
        proof {
            assert(regions_of(big_g).take(n as int) =~= regions_of(big_g));
            assert forall|m: int| 0 <= m < n implies pairs_model(offsets@)[m] == ns_pairs_of(
                big_g,
            )[m] by {
                lemma_end_offsets_monotone(regions_of(big_g), m);
            }
            assert(pairs_model(offsets@) =~= ns_pairs_of(big_g));
        }

        let ns_table = match NsTable::from_namespace_offsets(&offsets) {
            Ok(t) => t,
            Err(e) => {
                proof {
                    lemma_unfit_pairs(big_g, offsets@);
                }
                return Err(e);
            },
        };
        let metadata = ns_table.clone_table();
        proof {
            assert(ns_pairs_fit(ns_pairs_of(big_g)));
            assert(big_g.len() <= Word::MAX);
            assert forall|m: int|
                0 <= m < big_g.len() implies (#[trigger] big_g[m]).0 <= Word::MAX
                && tx_region_fits(big_g[m].1) by {
                assert(ns_pair_fits(ns_pairs_of(big_g)[m]));
                assert(ns_pairs_of(big_g)[m].0 == big_g[m].0);
            }
            assert(payload_bytes_of(big_g).len() == raw@.len());
            assert(groups_fit(big_g));
        }
        Ok((Payload { raw_payload: raw, ns_table }, metadata))
    }

    /// The payload of the genesis block: built from no transactions at all.
    /// Zero raw bytes, and a namespace table with zero entries.
    pub fn genesis() -> (r: (Payload, NsTable))
        ensures
            r.0.raw() == payload_bytes_of(grouped(Seq::<(u64, Seq<u8>)>::empty())),
            r.0.raw().len() == 0,
            r.0.table() == ns_table_bytes(ns_pairs_of(grouped(Seq::<(u64, Seq<u8>)>::empty()))),
            r.1@ == r.0.table(),
            ns_count(r.0.table()) == 0,
    {
        let txs: Vec<Transaction> = Vec::new();
        let state = ChainState::mock();
        proof {
            lemma_empty_fits();
        }
        match Payload::from_transactions(&txs, &state) {
            Ok(p) => {
                proof {
                    assert(txs_model(txs@) =~= Seq::<(u64, Seq<u8>)>::empty());
                    lemma_empty_decodes(p.0.table());
                }
                p
            },
            Err(_) => {
                proof {
                    assert(txs_model(txs@) =~= Seq::<(u64, Seq<u8>)>::empty());
                    assert(false);
                }
                vstd::pervasive::unreached()
            },
        }
    }

    /// Every transaction the payload holds, in canonical order: namespace
    /// order first, intra-namespace order second. The namespace table is
    /// trusted as far as clamped reads allow: a malformed table truncates
    /// enumeration safely, it never reads out of range.
    pub fn get_transactions(&self, metadata: &NsTable) -> (r: Vec<Transaction>)
        ensures
            txs_model(r@) == decode_payload(self.raw(), metadata@),
    {
        let count = metadata.len();
        let plen = self.raw_payload.len();
        let ghost dg = decoded_groups(self.raw(), metadata@);
        let mut out: Vec<Transaction> = Vec::new();
        let mut prev: usize = 0;
        let mut j: usize = 0;
        while j < count
            invariant
                j <= count,
                count == ns_count(metadata@),
                plen == self.raw().len(),
                prev == ns_clamped_end(metadata@, plen as int, j as int - 1),
                prev <= plen,
                dg == decoded_groups(self.raw(), metadata@),
                txs_model(out@) == concat_seqs(dg.take(j as int)),
            decreases count - j,
        {
            proof {
                lemma_ns_clamped_bounds(metadata@, plen as int, j as int);
            }
            let entry = metadata.get_table_entry(j);
            let id = entry.0;
            let end_raw = entry.2;
            let e0 = if end_raw > plen {
                plen
            } else {
                end_raw
            };
            let e = if e0 < prev {
                prev
            } else {
                e0
            };
            proof {
                assert(e as int == ns_clamped_end(metadata@, plen as int, j as int));
            }
            let region = subrange_to_vec(self.raw_payload.as_slice(), prev, e);
            proof {
                assert(region@ == ns_region_at(self.raw(), metadata@, j as int));
            }
            let bodies = parse_region_txs(region.as_slice());
            let nb = bodies.len();
            let mut i: usize = 0;
            while i < nb
                invariant
                    i <= nb,
                    nb == bodies@.len(),
                    views_of(bodies@) == parse_tx_region(region@),
                    txs_model(out@) == concat_seqs(dg.take(j as int)) + with_id(
                        id,
                        views_of(bodies@),
                    ).take(i as int),
                decreases nb - i,
            {
                let blen_i = bodies[i].len();
                let body = subrange_to_vec(bodies[i].as_slice(), 0, blen_i);
                proof {
                    assert(body@ =~= bodies@[i as int]@);
                    assert(with_id(id, views_of(bodies@))[i as int] == (id, bodies@[i as int]@));
                }
                let ghost out_before = out@;
                out.push(Transaction::new(id, body));
                proof {
                    let target = concat_seqs(dg.take(j as int)) + with_id(id, views_of(bodies@)).take(
                        i + 1,
                    );
                    assert(out@ == out_before.push(out@.last()));
                    assert(out@.len() == out_before.len() + 1);
                    assert(txs_model(out_before) == concat_seqs(dg.take(j as int)) + with_id(
                        id,
                        views_of(bodies@),
                    ).take(i as int));
                    assert(with_id(id, views_of(bodies@)).take(i + 1).len() == i + 1);
                    assert(txs_model(out@).len() == out@.len());
                    assert(txs_model(out_before).len() == out_before.len());
                    assert(target.len() == txs_model(out_before).len() + 1);
                    assert(txs_model(out@).len() == target.len());
                    assert forall|m: int| 0 <= m < target.len() implies txs_model(out@)[m]
                        == target[m] by {
                        if m < target.len() - 1 {
                            assert(out@[m] == out_before[m]);
                            assert(txs_model(out_before)[m] == target[m]);
                        } else {
                            assert(out@[m]@ == (id, bodies@[i as int]@));
                        }
                    }
                    assert(txs_model(out@) =~= target);
                }
                i = i + 1;
            }
            proof {
                lemma_concat_take_succ(dg, j as int);
                assert(with_id(id, views_of(bodies@)).take(nb as int) =~= dg[j as int]);
                assert(txs_model(out@) =~= concat_seqs(dg.take(j + 1)));
            }
            prev = e;
            j = j + 1;
        }
        proof {
            assert(dg.take(count as int) =~= dg);
        }
        out
    }

    /// One structural commitment per transaction, in canonical order.
    pub fn transaction_commitments(&self, metadata: &NsTable) -> (r: Vec<Commitment>)
        ensures
            r@.len() == decode_payload(self.raw(), metadata@).len(),
            forall|i: int|
                0 <= i < r@.len() ==> (#[trigger] r@[i])@ == keccak256_of(
                    tx_commit_input(
                        decode_payload(self.raw(), metadata@)[i].0,
                        decode_payload(self.raw(), metadata@)[i].1,
                    ),
                ),
    {
        let txs = self.get_transactions(metadata);
        let n = txs.len();
        let mut out: Vec<Commitment> = Vec::new();
        let mut i: usize = 0;
        while i < n
            invariant
                i <= n,
                n == txs@.len(),
                txs_model(txs@) == decode_payload(self.raw(), metadata@),
                out@.len() == i,
                forall|m: int|
                    0 <= m < i ==> (#[trigger] out@[m])@ == keccak256_of(
                        tx_commit_input(txs@[m]@.0, txs@[m]@.1),
                    ),
            decreases n - i,
        {
            let tx = &txs[i];
            let pl = tx.payload().len();
            proof {
                assert(tx@.1.len() == pl as int);
            }
            out.push(tx.commit());
            i = i + 1;
        }
        out
    }

    /// The commitment block builders sign: SHA-256 over the length-prefixed
    /// raw bytes, embedded table bytes and metadata bytes.
    pub fn builder_commitment(&self, metadata: &NsTable) -> (r: BuilderCommitment)
        ensures
            r@ == sha256_of(builder_commit_input(self.raw(), self.table(), metadata@)),
            r@.len() == 32,
    {
        let mut input: Vec<u8> = Vec::new();
        push_u64_le(&mut input, self.raw_payload.len() as u64);
        push_u64_le(&mut input, self.ns_table.bytes().len() as u64);
        push_u64_le(&mut input, metadata.bytes().len() as u64);
        input.extend_from_slice(self.raw_payload.as_slice());
        input.extend_from_slice(self.ns_table.bytes().as_slice());
        input.extend_from_slice(metadata.bytes().as_slice());
        proof {
            assert(input@ =~= builder_commit_input(self.raw(), self.table(), metadata@));
        }
        BuilderCommitment::of_input(&input)
    }
}

} // verus!
