//! Transactions: opaque byte payloads tagged with a namespace identifier.

use vstd::prelude::*;

use crate::commitment::{
    constant_str_bytes, keccak256_of, push_constant_str, push_u64_le, push_var_size_bytes,
    var_size_bytes, Commitment,
};

verus! {

/// An opaque byte-bearing unit tagged with the namespace it belongs to.
/// Immutable once constructed.
#[derive(Debug)]
pub struct Transaction {
    namespace: u64,
    payload: Vec<u8>,
}

/// What a transaction is to the specifications: its namespace identifier and
/// its payload bytes.
pub open spec fn tx_model(ns: u64, payload: Seq<u8>) -> (u64, Seq<u8>) {
    (ns, payload)
}

impl View for Transaction {
    type V = (u64, Seq<u8>);

    closed spec fn view(&self) -> (u64, Seq<u8>) {
        (self.namespace, self.payload@)
    }
}

/// The bytes of the ASCII tag `TX`.
pub open spec fn tag_tx_bytes() -> Seq<u8> {
    seq![84u8, 88u8]
}

/// The bytes of the ASCII field name `namespace`.
pub open spec fn name_namespace_bytes() -> Seq<u8> {
    seq![110u8, 97u8, 109u8, 101u8, 115u8, 112u8, 97u8, 99u8, 101u8]
}

/// The bytes of the ASCII field name `payload`.
pub open spec fn name_payload_bytes() -> Seq<u8> {
    seq![112u8, 97u8, 121u8, 108u8, 111u8, 97u8, 100u8]
}

/// The framing whose Keccak-256 digest is a transaction's structural
/// commitment: the `TX` tag, the `namespace` field, and the length-prefixed
/// `payload` field.
pub open spec fn tx_commit_input(ns: u64, payload: Seq<u8>) -> Seq<u8> {
    constant_str_bytes(tag_tx_bytes()) + constant_str_bytes(name_namespace_bytes())
        + vstd::bytes::spec_u64_to_le_bytes(ns) + constant_str_bytes(name_payload_bytes())
        + var_size_bytes(payload)
}

/// The transaction framing is injective: two distinct transactions can
/// never frame to the same digest input, because the namespace sits at a
/// fixed position and the payload is length-prefixed. Together with the
/// determinism of the digest this makes the commitment a faithful content
/// digest; that distinct inputs also yield distinct digests is the hash's
/// collision resistance, which no specification here claims.
pub proof fn lemma_tx_input_injective(ns1: u64, p1: Seq<u8>, ns2: u64, p2: Seq<u8>)
    requires
        tx_commit_input(ns1, p1) == tx_commit_input(ns2, p2),
        p1.len() <= u64::MAX,
        p2.len() <= u64::MAX,
    ensures
        ns1 == ns2,
        p1 == p2,
{
    vstd::bytes::lemma_auto_spec_u64_to_from_le_bytes();
    let a = tx_commit_input(ns1, p1);
    let b = tx_commit_input(ns2, p2);
    assert(a.subrange(15, 23) =~= vstd::bytes::spec_u64_to_le_bytes(ns1));
    assert(b.subrange(15, 23) =~= vstd::bytes::spec_u64_to_le_bytes(ns2));
    assert(ns1 == ns2) by {
        assert(vstd::bytes::spec_u64_from_le_bytes(vstd::bytes::spec_u64_to_le_bytes(ns1)) == ns1);
        assert(vstd::bytes::spec_u64_from_le_bytes(vstd::bytes::spec_u64_to_le_bytes(ns2)) == ns2);
    }
    assert(a.subrange(32, 40) =~= vstd::bytes::spec_u64_to_le_bytes(p1.len() as u64));
    assert(b.subrange(32, 40) =~= vstd::bytes::spec_u64_to_le_bytes(p2.len() as u64));
    assert(p1.len() == p2.len()) by {
        assert(vstd::bytes::spec_u64_from_le_bytes(
            vstd::bytes::spec_u64_to_le_bytes(p1.len() as u64),
        ) == p1.len() as u64);
        assert(vstd::bytes::spec_u64_from_le_bytes(
            vstd::bytes::spec_u64_to_le_bytes(p2.len() as u64),
        ) == p2.len() as u64);
    }
    assert(p1 =~= a.subrange(40, 40 + p1.len() as int));
    assert(p2 =~= b.subrange(40, 40 + p1.len() as int));
}

impl Transaction {
    /// A new transaction in namespace `namespace` carrying `payload`.
    pub fn new(namespace: u64, payload: Vec<u8>) -> (r: Transaction)
        ensures
            r@ == tx_model(namespace, payload@),
    {
        Transaction { namespace, payload }
    }

    /// The namespace this transaction belongs to.
    pub fn namespace(&self) -> (r: u64)
        ensures
            r == self@.0,
    {
        self.namespace
    }

    /// The transaction's payload bytes.
    pub fn payload(&self) -> (r: &Vec<u8>)
        ensures
            r@ == self@.1,
    {
        &self.payload
    }

    /// The transaction's structural commitment: the Keccak-256 digest of the
    /// `TX` framing of its namespace and payload.
    pub fn commit(&self) -> (r: Commitment)
        requires
            self@.1.len() <= u64::MAX,
        ensures
            r@ == keccak256_of(tx_commit_input(self@.0, self@.1)),
    {
        let mut tag: Vec<u8> = Vec::new();
        tag.push(84u8);
        tag.push(88u8);
        let mut name_ns: Vec<u8> = Vec::new();
        name_ns.push(110u8);
        name_ns.push(97u8);
        name_ns.push(109u8);
        name_ns.push(101u8);
        name_ns.push(115u8);
        name_ns.push(112u8);
        name_ns.push(97u8);
        name_ns.push(99u8);
        name_ns.push(101u8);
        let mut name_payload: Vec<u8> = Vec::new();
        name_payload.push(112u8);
        name_payload.push(97u8);
        name_payload.push(121u8);
        name_payload.push(108u8);
        name_payload.push(111u8);
        name_payload.push(97u8);
        name_payload.push(100u8);
        proof {
            assert(tag@ =~= tag_tx_bytes());
            assert(name_ns@ =~= name_namespace_bytes());
            assert(name_payload@ =~= name_payload_bytes());
        }
        let mut input: Vec<u8> = Vec::new();
        push_constant_str(&mut input, &tag);
        push_constant_str(&mut input, &name_ns);
        push_u64_le(&mut input, self.namespace);
        push_constant_str(&mut input, &name_payload);
        push_var_size_bytes(&mut input, &self.payload);
        proof {
            assert(input@ =~= tx_commit_input(self@.0, self@.1));
        }
        Commitment::of_input(&input)
    }
}

} // verus!
