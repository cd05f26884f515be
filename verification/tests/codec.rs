//! The codec run on concrete values: assembly, decoding, round trips,
//! overflow rejection, and the builder commitment.

use block_payload::ns_table::NsTable;
use block_payload::payload::{ChainState, Payload};
use block_payload::transaction::Transaction;
use block_payload::BuildError;

fn tx(ns: u64, payload: &[u8]) -> Transaction {
    Transaction::new(ns, payload.to_vec())
}

#[test]
fn single_namespace_layout() {
    let txs = vec![tx(5, &[1, 2, 3])];
    let (payload, meta) = Payload::from_transactions(&txs, &ChainState::mock()).unwrap();
    // region: count word, end word, then the body
    assert_eq!(payload.encode(), vec![1, 0, 0, 0, 3, 0, 0, 0, 1, 2, 3]);
    // table: count, id, absolute end
    assert_eq!(meta.bytes().as_slice(), &[1, 0, 0, 0, 5, 0, 0, 0, 11, 0, 0, 0]);
    assert_eq!(meta.len(), 1);
    assert_eq!(meta.get_table_entry(0), (5, 0, 11));
}

#[test]
fn round_trip_multiple_namespaces() {
    // namespaces interleaved; first appearance order is 7, 2, 9
    let txs = vec![
        tx(7, b"alpha"),
        tx(2, b"beta"),
        tx(7, b"gamma"),
        tx(9, b""),
        tx(2, b"delta"),
    ];
    let (payload, meta) = Payload::from_transactions(&txs, &ChainState::mock()).unwrap();
    let back = payload.get_transactions(&meta);
    let got: Vec<(u64, Vec<u8>)> = back
        .iter()
        .map(|t| (t.namespace(), t.payload().clone()))
        .collect();
    assert_eq!(
        got,
        vec![
            (7, b"alpha".to_vec()),
            (7, b"gamma".to_vec()),
            (2, b"beta".to_vec()),
            (2, b"delta".to_vec()),
            (9, b"".to_vec()),
        ]
    );
}

#[test]
fn ns_table_monotone_offsets() {
    let txs = vec![tx(1, &[9; 4]), tx(2, &[8; 10]), tx(3, &[])];
    let (payload, meta) = Payload::from_transactions(&txs, &ChainState::mock()).unwrap();
    let total = payload.encode().len();
    let mut prev = 0usize;
    for i in 0..meta.len() {
        let (_, start, end) = meta.get_table_entry(i);
        assert_eq!(start, prev);
        assert!(end >= start);
        prev = end;
    }
    assert_eq!(prev, total);
}

#[test]
fn genesis_is_empty_build() {
    let (payload, meta) = Payload::genesis();
    assert_eq!(payload.encode().len(), 0);
    assert_eq!(meta.len(), 0);
    let (built, built_meta) =
        Payload::from_transactions(&Vec::new(), &ChainState::mock()).unwrap();
    assert_eq!(payload.encode(), built.encode());
    assert_eq!(meta.bytes(), built_meta.bytes());
}

#[test]
fn from_bytes_round_trip() {
    let txs = vec![tx(4, b"ab"), tx(4, b"cd"), tx(6, b"ef")];
    let (payload, meta) = Payload::from_transactions(&txs, &ChainState::mock()).unwrap();
    let wire = payload.encode();
    let rebuilt = Payload::from_bytes(&wire, &meta);
    assert_eq!(rebuilt.encode(), wire);
    let back = rebuilt.get_transactions(&meta);
    assert_eq!(back.len(), 3);
    assert_eq!(back[0].payload().as_slice(), b"ab");
    assert_eq!(back[2].namespace(), 6);
}

#[test]
fn oversized_namespace_id_is_rejected() {
    // a namespace identifier beyond the word width cannot be encoded
    let txs = vec![tx(u64::MAX, b"x")];
    match Payload::from_transactions(&txs, &ChainState::mock()) {
        Err(e) => assert_eq!(e, BuildError::WordOverflow),
        Ok(_) => panic!("oversized namespace id must be rejected"),
    }
}

#[test]
fn oversized_end_offset_is_rejected() {
    // an end offset beyond the word width cannot be stored in the table
    let offsets = vec![(1u64, (u32::MAX as usize) + 1)];
    match NsTable::from_namespace_offsets(&offsets) {
        Err(e) => assert_eq!(e, BuildError::WordOverflow),
        Ok(_) => panic!("oversized end offset must be rejected"),
    }
    // the largest representable offset still encodes
    assert!(NsTable::from_namespace_offsets(&vec![(1u64, u32::MAX as usize)]).is_ok());
}

#[test]
fn builder_commitment_exact_digest() {
    let txs = vec![tx(5, &[1, 2, 3])];
    let (payload, meta) = Payload::from_transactions(&txs, &ChainState::mock()).unwrap();
    let commitment = payload.builder_commitment(&meta);
    assert_eq!(
        commitment.as_bytes().as_slice(),
        &[
            145, 30, 83, 143, 229, 205, 153, 149, 229, 240, 79, 176, 51, 1, 111, 14, 43, 178,
            181, 108, 205, 57, 67, 239, 66, 15, 223, 15, 30, 143, 234, 158
        ]
    );
}

#[test]
fn builder_commitment_depends_on_every_byte() {
    let txs = vec![tx(5, &[1, 2, 3])];
    let (payload, meta) = Payload::from_transactions(&txs, &ChainState::mock()).unwrap();
    let base = payload.builder_commitment(&meta).as_bytes().clone();

    // change one payload byte
    let txs2 = vec![tx(5, &[1, 2, 4])];
    let (payload2, meta2) = Payload::from_transactions(&txs2, &ChainState::mock()).unwrap();
    assert_ne!(payload2.builder_commitment(&meta2).as_bytes(), &base);

    // same payload, different metadata bytes
    let other_meta = NsTable::from_namespace_offsets(&vec![(6u64, 11usize)]).unwrap();
    assert_ne!(payload.builder_commitment(&other_meta).as_bytes(), &base);

    // equal inputs give equal digests
    assert_eq!(payload.builder_commitment(&meta).as_bytes(), &base);
}

#[test]
fn transaction_commitments_in_canonical_order() {
    let txs = vec![tx(3, b"x"), tx(1, b"y"), tx(3, b"z")];
    let (payload, meta) = Payload::from_transactions(&txs, &ChainState::mock()).unwrap();
    let commitments = payload.transaction_commitments(&meta);
    assert_eq!(commitments.len(), 3);
    // canonical order: namespace 3's transactions first, then namespace 1's
    assert_eq!(
        commitments[0].as_bytes(),
        tx(3, b"x").commit().as_bytes()
    );
    assert_eq!(
        commitments[1].as_bytes(),
        tx(3, b"z").commit().as_bytes()
    );
    assert_eq!(
        commitments[2].as_bytes(),
        tx(1, b"y").commit().as_bytes()
    );
}

#[test]
fn word_codec_round_trip() {
    let mut bytes = Vec::new();
    block_payload::word::push_word(&mut bytes, 0);
    block_payload::word::push_word(&mut bytes, 1);
    block_payload::word::push_word(&mut bytes, 0xDEADBEEF);
    block_payload::word::push_word(&mut bytes, u32::MAX);
    assert_eq!(
        bytes,
        vec![0, 0, 0, 0, 1, 0, 0, 0, 0xEF, 0xBE, 0xAD, 0xDE, 255, 255, 255, 255]
    );
    assert_eq!(block_payload::word::read_word(&bytes, 8), 0xDEADBEEF);
    assert_eq!(block_payload::word::word_from_usize(7), Ok(7));
    assert_eq!(
        block_payload::word::word_from_u64(u64::MAX),
        Err(BuildError::WordOverflow)
    );
}

#[test]
fn declared_count_is_capped_by_available_bytes() {
    // the table claims five entries but holds bytes for one
    let table = NsTable::from_bytes(vec![5, 0, 0, 0, 9, 0, 0, 0, 4, 0, 0, 0]);
    assert_eq!(table.len(), 1);
    assert_eq!(table.get_table_entry(0), (9, 0, 4));
    // too short to hold even a count word
    assert_eq!(NsTable::from_bytes(vec![1, 2]).len(), 0);
}

#[test]
fn malformed_table_truncates_safely() {
    // a table whose end offsets reach past the payload: reads clamp
    let meta = NsTable::from_namespace_offsets(&vec![(1u64, 1000usize)]).unwrap();
    let payload = Payload::from_bytes(&[1, 0, 0, 0, 2, 0, 0, 0, 7, 7], &meta);
    let back = payload.get_transactions(&meta);
    assert_eq!(back.len(), 1);
    assert_eq!(back[0].namespace(), 1);
    assert_eq!(back[0].payload().as_slice(), &[7, 7]);

    // a declared transaction count larger than the region can hold
    let meta2 = NsTable::from_namespace_offsets(&vec![(1u64, 6usize)]).unwrap();
    let payload2 = Payload::from_bytes(&[99, 0, 0, 0, 5, 9], &meta2);
    let back2 = payload2.get_transactions(&meta2);
    // the region has six bytes: no room for 99 table cells
    assert!(back2.len() <= 1);
}
