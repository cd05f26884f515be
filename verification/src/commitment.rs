//! Commitment derivation.
//!
//! Two mechanisms, per the protocol's external interface:
//!
//! * the structural commitment: a Keccak-256 digest over a canonical framing
//!   of a value's fields — every constant string is followed by the two-byte
//!   separator `0xC0 0x7F` (an invalid UTF-8 sequence, so no field name can
//!   collide with data), fixed-width integers are little-endian, and
//!   variable-size byte strings are length-prefixed with their 64-bit
//!   little-endian length;
//! * the builder commitment: a plain SHA-256 digest over length-prefixed
//!   payload bytes (see the payload module).
//!
//! A commitment is displayed as its type's tag, `~`, and a URL-safe base64
//! rendering of the digest plus a one-byte checksum.

use vstd::prelude::*;

verus! {

/// The digest Keccak-256 assigns to a byte string. Trusted wrappers below
/// relate the hash calls to this name; nothing else constrains it.
pub uninterp spec fn keccak256_of(input: Seq<u8>) -> Seq<u8>;

/// The digest SHA-256 assigns to a byte string.
pub uninterp spec fn sha256_of(input: Seq<u8>) -> Seq<u8>;

/// The tagged-base64 rendering of a byte string under a tag: the tag, `~`,
/// and URL-safe base64 of the bytes followed by their checksum byte.
pub uninterp spec fn tb64_of(tag: Seq<char>, value: Seq<u8>) -> Seq<char>;

/// Relies on sha3's `Keccak256`: the digest is 32 bytes and depends on the
/// input bytes alone.
#[verifier::external_body]
fn keccak256_digest(input: &Vec<u8>) -> (r: Vec<u8>)
    ensures
        r@ == keccak256_of(input@),
        r@.len() == 32,
{
    <sha3::Keccak256 as sha3::digest::Digest>::digest(input.as_slice()).to_vec()
}

/// Relies on sha2's `Sha256`: the digest is 32 bytes and depends on the
/// input bytes alone.
#[verifier::external_body]
fn sha256_digest(input: &Vec<u8>) -> (r: Vec<u8>)
    ensures
        r@ == sha256_of(input@),
        r@.len() == 32,
{
    <sha2::Sha256 as sha2::digest::Digest>::digest(input.as_slice()).to_vec()
}

/// A character the tagged-base64 format accepts in a tag.
pub open spec fn is_tag_char(c: char) -> bool {
    ('a' <= c && c <= 'z') || ('A' <= c && c <= 'Z') || ('0' <= c && c <= '9') || c == '-' || c
        == '_'
}

/// Relies on tagged_base64's `TaggedBase64::new` and `to_string`: for a
/// URL-safe tag the constructor succeeds, and the rendering depends on the
/// tag and value alone.
#[verifier::external_body]
fn tagged_base64_render(tag: &str, value: &Vec<u8>) -> (r: String)
    requires
        forall|i: int| 0 <= i < tag@.len() ==> is_tag_char(tag@[i]),
    ensures
        r@ == tb64_of(tag@, value@),
{
    match tagged_base64::TaggedBase64::new(tag, value.as_slice()) {
        Ok(tb) => tagged_base64::to_string(&tb),
        Err(_) => String::new(),
    }
}

/// A structural commitment: a 32-byte Keccak-256 digest of a canonical
/// framing of a committable value.
#[derive(Debug)]
pub struct Commitment {
    digest: Vec<u8>,
}

impl View for Commitment {
    type V = Seq<u8>;

    closed spec fn view(&self) -> Seq<u8> {
        self.digest@
    }
}

impl Commitment {
    /// Commits to a prepared framing: the digest of `input`.
    pub fn of_input(input: &Vec<u8>) -> (r: Commitment)
        ensures
            r@ == keccak256_of(input@),
            r@.len() == 32,
    {
        Commitment { digest: keccak256_digest(input) }
    }

    /// The raw digest bytes.
    pub fn as_bytes(&self) -> (r: &Vec<u8>)
        ensures
            r@ == self@,
    {
        &self.digest
    }

    /// The display form: tag, `~`, URL-safe base64 of digest and checksum.
    pub fn tagged_base64(&self, tag: &str) -> (r: String)
        requires
            forall|i: int| 0 <= i < tag@.len() ==> is_tag_char(tag@[i]),
        ensures
            r@ == tb64_of(tag@, self@),
    {
        tagged_base64_render(tag, &self.digest)
    }
}

/// The content digest block builders sign: a 32-byte SHA-256 digest of
/// length-prefixed payload and namespace-table bytes.
#[derive(Debug)]
pub struct BuilderCommitment {
    digest: Vec<u8>,
}

impl View for BuilderCommitment {
    type V = Seq<u8>;

    closed spec fn view(&self) -> Seq<u8> {
        self.digest@
    }
}

impl BuilderCommitment {
    /// Digests a prepared framing with SHA-256.
    pub fn of_input(input: &Vec<u8>) -> (r: BuilderCommitment)
        ensures
            r@ == sha256_of(input@),
            r@.len() == 32,
    {
        BuilderCommitment { digest: sha256_digest(input) }
    }

    /// The raw digest bytes.
    pub fn as_bytes(&self) -> (r: &Vec<u8>)
        ensures
            r@ == self@,
    {
        &self.digest
    }
}

/// The framing separator that follows every constant string: an invalid
/// UTF-8 sequence, so no tag or field name can collide with data bytes.
pub open spec fn sep_bytes() -> Seq<u8> {
    seq![0xC0u8, 0x7Fu8]
}

/// A constant string of the framing: its bytes, then the separator.
pub open spec fn constant_str_bytes(name: Seq<u8>) -> Seq<u8> {
    name + sep_bytes()
}

/// A variable-size byte string of the framing: a 64-bit little-endian
/// length, then the bytes.
pub open spec fn var_size_bytes(value: Seq<u8>) -> Seq<u8> {
    vstd::bytes::spec_u64_to_le_bytes(value.len() as u64) + value
}

/// Appends a constant string (name bytes plus separator) to a framing.
pub fn push_constant_str(out: &mut Vec<u8>, name: &Vec<u8>)
    ensures
        final(out)@ == old(out)@ + constant_str_bytes(name@),
{
    out.extend_from_slice(name.as_slice());
    out.push(0xC0u8);
    out.push(0x7Fu8);
    proof {
        assert(out@ =~= old(out)@ + constant_str_bytes(name@));
    }
}

/// Appends a 64-bit little-endian integer to a framing.
pub fn push_u64_le(out: &mut Vec<u8>, v: u64)
    ensures
        final(out)@ == old(out)@ + vstd::bytes::spec_u64_to_le_bytes(v),
{
    let bytes = vstd::bytes::u64_to_le_bytes(v);
    out.extend_from_slice(bytes.as_slice());
    proof {
        assert(out@ =~= old(out)@ + vstd::bytes::spec_u64_to_le_bytes(v));
    }
}

/// Appends a length-prefixed byte string to a framing.
pub fn push_var_size_bytes(out: &mut Vec<u8>, value: &Vec<u8>)
    requires
        value@.len() <= u64::MAX,
    ensures
        final(out)@ == old(out)@ + var_size_bytes(value@),
{
    push_u64_le(out, value.len() as u64);
    out.extend_from_slice(value.as_slice());
    proof {
        assert(out@ =~= old(out)@ + var_size_bytes(value@));
    }
}

} // verus!
