//! The L1 block record: one of the protocol's committable values.
//!
//! The consensus layer tracks blocks of the layer-1 chain by number,
//! timestamp and hash. Here the record is modeled with plain values — the
//! 256-bit timestamp as its 32 little-endian bytes, the hash as its 32
//! bytes — so that its commitment framing is fully specified.

use vstd::prelude::*;

use crate::commitment::{
    constant_str_bytes, keccak256_of, push_constant_str, push_u64_le, Commitment,
};

verus! {

/// A layer-1 block reference: block number, timestamp and block hash.
pub struct L1BlockInfo {
    number: u64,
    timestamp: Vec<u8>,
    hash: Vec<u8>,
}

/// Well-formed when the timestamp holds exactly its 32 little-endian bytes
/// and the hash its 32 bytes.
pub open spec fn l1_wf(timestamp: Seq<u8>, hash: Seq<u8>) -> bool {
    timestamp.len() == 32 && hash.len() == 32
}

impl View for L1BlockInfo {
    type V = (u64, Seq<u8>, Seq<u8>);

    closed spec fn view(&self) -> (u64, Seq<u8>, Seq<u8>) {
        (self.number, self.timestamp@, self.hash@)
    }
}

/// The bytes of the ASCII tag `L1BLOCK`.
pub open spec fn tag_l1block_bytes() -> Seq<u8> {
    seq![76u8, 49u8, 66u8, 76u8, 79u8, 67u8, 75u8]
}

/// The bytes of the ASCII field name `number`.
pub open spec fn name_number_bytes() -> Seq<u8> {
    seq![110u8, 117u8, 109u8, 98u8, 101u8, 114u8]
}

/// The bytes of the ASCII field name `timestamp`.
pub open spec fn name_timestamp_bytes() -> Seq<u8> {
    seq![116u8, 105u8, 109u8, 101u8, 115u8, 116u8, 97u8, 109u8, 112u8]
}

/// The bytes of the ASCII field name `hash`.
pub open spec fn name_hash_bytes() -> Seq<u8> {
    seq![104u8, 97u8, 115u8, 104u8]
}

/// The framing whose Keccak-256 digest is the record's structural
/// commitment: the `L1BLOCK` tag, the `number` field as 64-bit
/// little-endian, and the fixed-size `timestamp` and `hash` fields.
pub open spec fn l1_commit_input(number: u64, timestamp: Seq<u8>, hash: Seq<u8>) -> Seq<u8> {
    constant_str_bytes(tag_l1block_bytes()) + constant_str_bytes(name_number_bytes())
        + vstd::bytes::spec_u64_to_le_bytes(number) + constant_str_bytes(name_timestamp_bytes())
        + timestamp + constant_str_bytes(name_hash_bytes()) + hash
}

impl L1BlockInfo {
    /// A new record; the timestamp as its 32 little-endian bytes, the hash
    /// as its 32 bytes.
    pub fn new(number: u64, timestamp: Vec<u8>, hash: Vec<u8>) -> (r: L1BlockInfo)
        requires
            l1_wf(timestamp@, hash@),
        ensures
            r@ == (number, timestamp@, hash@),
    {
        L1BlockInfo { number, timestamp, hash }
    }

    /// The record's structural commitment: the Keccak-256 digest of the
    /// `L1BLOCK` framing of its fields.
    pub fn commit(&self) -> (r: Commitment)
        ensures
            r@ == keccak256_of(l1_commit_input(self@.0, self@.1, self@.2)),
    {
        let mut tag: Vec<u8> = Vec::new();
        tag.push(76u8);
        tag.push(49u8);
        tag.push(66u8);
        tag.push(76u8);
        tag.push(79u8);
        tag.push(67u8);
        tag.push(75u8);
        let mut name_number: Vec<u8> = Vec::new();
        name_number.push(110u8);
        name_number.push(117u8);
        name_number.push(109u8);
        name_number.push(98u8);
        name_number.push(101u8);
        name_number.push(114u8);
        let mut name_timestamp: Vec<u8> = Vec::new();
        name_timestamp.push(116u8);
        name_timestamp.push(105u8);
        name_timestamp.push(109u8);
        name_timestamp.push(101u8);
        name_timestamp.push(115u8);
        name_timestamp.push(116u8);
        name_timestamp.push(97u8);
        name_timestamp.push(109u8);
        name_timestamp.push(112u8);
        let mut name_hash: Vec<u8> = Vec::new();
        name_hash.push(104u8);
        name_hash.push(97u8);
        name_hash.push(115u8);
        name_hash.push(104u8);
        proof {
            assert(tag@ =~= tag_l1block_bytes());
            assert(name_number@ =~= name_number_bytes());
            assert(name_timestamp@ =~= name_timestamp_bytes());
            assert(name_hash@ =~= name_hash_bytes());
        }
        let mut input: Vec<u8> = Vec::new();
        push_constant_str(&mut input, &tag);
        push_constant_str(&mut input, &name_number);
        push_u64_le(&mut input, self.number);
        push_constant_str(&mut input, &name_timestamp);
        input.extend_from_slice(self.timestamp.as_slice());
        push_constant_str(&mut input, &name_hash);
        input.extend_from_slice(self.hash.as_slice());
        proof {
            assert(input@ =~= l1_commit_input(self@.0, self@.1, self@.2));
        }
        Commitment::of_input(&input)
    }
}

} // verus!
