//! Domain-separated node hashing.
//!
//! A hash is the 32-byte little-endian encoding of an element of the field `Fq`
//! of decaf377. An internal node at altitude `a` hashes its four children with
//! Poseidon, keyed by a domain separator that is derived from a fixed tag and
//! `a`, so that a hash made at one altitude is never valid at another.
use vstd::prelude::*;

verus! {

/// A node hash, or a commitment at a leaf.
pub type Digest = [u8; 32];

/// The BLAKE2b-512 digest of a message.
pub uninterp spec fn blake2b_of(msg: Seq<u8>) -> Seq<u8>;

/// Poseidon's 4-to-1 hash over `Fq`, with each input read as a little-endian
/// integer reduced modulo the field's order, and the result encoded back.
pub uninterp spec fn poseidon_of(domain: Seq<u8>, a: Seq<u8>, b: Seq<u8>, c: Seq<u8>, d: Seq<u8>) -> Seq<u8>;

/// The tag that every domain separator starts with: the bytes of `tct.node`.
pub open spec fn domain_tag() -> Seq<u8> {
    seq![116u8, 99u8, 116u8, 46u8, 110u8, 111u8, 100u8, 101u8]
}

/// The message whose digest keys the hash at an altitude.
pub open spec fn domain_message(altitude: u8) -> Seq<u8> {
    domain_tag().push(altitude)
}

/// The value of an absent child: the encoding of zero.
pub open spec fn empty_hash() -> Seq<u8> {
    Seq::new(32, |i: int| 0u8)
}

/// The hash of a node at `altitude` whose children are `a`, `b`, `c`, `d`,
/// from left to right.
pub open spec fn combine_spec(altitude: u8, a: Seq<u8>, b: Seq<u8>, c: Seq<u8>, d: Seq<u8>) -> Seq<u8> {
    poseidon_of(blake2b_of(domain_message(altitude)), a, b, c, d)
}

/// Relies on blake2b_simd::blake2b: the digest depends on the message alone and
/// has the default length of 64 bytes.
#[verifier::external_body]
fn blake2b_digest(msg: &[u8]) -> (r: Vec<u8>)
    ensures
        r@ == blake2b_of(msg@),
        r@.len() == 64,
{
    blake2b_simd::blake2b(msg).as_bytes().to_vec()
}

/// Relies on poseidon377::hash_4 (and on decaf377's `Fq::from_le_bytes_mod_order`
/// and `Fq::to_bytes` to read the inputs and encode the result): the hash depends
/// on its inputs alone.
#[verifier::external_body]
fn poseidon_4(domain: &[u8], a: &Digest, b: &Digest, c: &Digest, d: &Digest) -> (r: Digest)
    ensures
        r@ == poseidon_of(domain@, a@, b@, c@, d@),
{
    let domain = decaf377::Fq::from_le_bytes_mod_order(domain);
    let a = decaf377::Fq::from_le_bytes_mod_order(a);
    let b = decaf377::Fq::from_le_bytes_mod_order(b);
    let c = decaf377::Fq::from_le_bytes_mod_order(c);
    let d = decaf377::Fq::from_le_bytes_mod_order(d);
    poseidon377::hash_4(&domain, (a, b, c, d)).to_bytes()
}

/// The canonical empty value.
pub fn empty() -> (r: Digest)
    ensures
        r@ == empty_hash(),
{
    let r: Digest = [0u8; 32];
    proof {
        broadcast use vstd::array::group_array_axioms;
        assert(r@ =~= empty_hash());
    }
    r
}

/// Hashes four children at `altitude`.
pub fn combine(altitude: u8, a: &Digest, b: &Digest, c: &Digest, d: &Digest) -> (r: Digest)
    ensures
        r@ == combine_spec(altitude, a@, b@, c@, d@),
{
    let msg: Vec<u8> = vec![116u8, 99u8, 116u8, 46u8, 110u8, 111u8, 100u8, 101u8, altitude];
    assert(msg@ =~= domain_message(altitude));
    let domain = blake2b_digest(msg.as_slice());
    poseidon_4(domain.as_slice(), a, b, c, d)
}

/// Whether 32 bytes are the canonical little-endian encoding of an element of
/// `Fq`, that is, of an integer below the field's order.
pub uninterp spec fn is_canonical(bytes: Seq<u8>) -> bool;

/// Relies on decaf377's `Fq::from_bytes_checked`: it accepts exactly the
/// canonical encodings.
#[verifier::external_body]
fn canonical(bytes: &[u8; 32]) -> (r: bool)
    ensures
        r == is_canonical(bytes@),
{
    decaf377::Fq::from_bytes_checked(bytes).is_ok()
}

/// The root of a tree, held as its 32-byte encoding.
#[derive(Debug, Clone, Copy, PartialEq, Eq)]
pub struct Root(pub Digest);

impl Root {
    /// The 32-byte encoding of the root.
    pub fn to_bytes(&self) -> (r: [u8; 32])
        ensures
            r == self.0,
    {
        self.0
    }

    /// Reads a root from its encoding: `None` unless `bytes` is 32 bytes long
    /// and canonical.
    pub fn from_bytes(bytes: &[u8]) -> (r: Option<Root>)
        ensures
            r is Some <==> bytes@.len() == 32 && is_canonical(bytes@),
            r matches Some(root) ==> root.0@ == bytes@,
    {
        if bytes.len() != 32 {
            return None;
        }
        let mut a: [u8; 32] = [0u8; 32];
        let mut i: usize = 0;
        while i < 32
            invariant
                bytes@.len() == 32,
                i <= 32,
                forall|j: int| 0 <= j < i ==> a@[j] == bytes@[j],
            decreases 32 - i,
        {
            a[i] = bytes[i];
            i = i + 1;
        }
        assert(a@ =~= bytes@);
        if canonical(&a) {
            Some(Root(a))
        } else {
            None
        }
    }
}

} // verus!
