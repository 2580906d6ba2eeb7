//! The pluggable hash algorithm behind bucket selection.
//!
//! A [`HashStrategy`] is a stateless factory that yields one fresh, isolated
//! hasher per container operation. A [`Hasher`] accumulates bytes and
//! finalizes them into a fixed-width digest that depends on the accumulated
//! byte sequence alone. The concrete algorithm here is Keccak-256, reached
//! through the `sha3` crate.

use vstd::prelude::*;
use crate::reduce::{be_value, reduce_be};

verus! {

/// A stateful byte accumulator that finalizes into a fixed-width digest.
pub trait Hasher: Sized {
    /// The byte sequence accumulated so far.
    spec fn absorbed(&self) -> Seq<u8>;

    /// The digest this kind of hasher assigns to an accumulated sequence:
    /// a function of the bytes alone, so equal sequences give equal digests.
    spec fn algo(s: Seq<u8>) -> Seq<u8>;

    /// Feed a byte sequence into the accumulator; repeated calls append,
    /// order- and boundary-sensitively.
    fn absorb(&mut self, bytes: &[u8])
        ensures
            final(self).absorbed() == old(self).absorbed() + bytes@,
    ;

    /// Finalize the accumulated bytes into a digest of at least eight bytes,
    /// leaving the accumulator untouched.
    fn digest(&self) -> (d: Vec<u8>)
        ensures
            d@ == Self::algo(self.absorbed()),
            d@.len() >= 8,
    ;
}

/// A stateless factory producing a fresh, independent hasher per call.
pub trait HashStrategy: Sized {
    /// The kind of hasher this strategy creates.
    type H: Hasher;

    /// Create a hasher with nothing absorbed, isolated from the state of
    /// every other hasher.
    fn create(&self) -> (h: Self::H)
        ensures
            h.absorbed() == Seq::<u8>::empty(),
    ;
}

/// The Keccak-256 digest of a byte sequence.
pub uninterp spec fn keccak256_of(input: Seq<u8>) -> Seq<u8>;

/// Relies on the `sha3` crate's `Keccak256` through `Digest::digest`: the
/// Keccak-256 digest is 32 bytes and a function of the input bytes alone.
#[verifier::external_body]
fn keccak256(input: &[u8]) -> (r: Vec<u8>)
    ensures
        r@ == keccak256_of(input@),
        r@.len() == 32,
{
    let out = <sha3::Keccak256 as sha3::Digest>::digest(input);
    out.as_slice().to_vec()
}

/// A Keccak-256 byte accumulator. The bytes absorbed so far are kept in a
/// buffer, so finalizing hashes a snapshot of the accumulated sequence and
/// never disturbs the accumulator itself.
pub struct Keccak256Hasher {
    buf: Vec<u8>,
}

impl Keccak256Hasher {
    /// A fresh hasher with nothing absorbed.
    pub fn new() -> (h: Self)
        ensures
            h.absorbed() == Seq::<u8>::empty(),
    {
        Keccak256Hasher { buf: Vec::new() }
    }

    /// The 64-bit reduction of the digest's first eight bytes, read
    /// most-significant byte first.
    pub fn finish(&self) -> (r: u64)
        ensures
            r as int == be_value(keccak256_of(self.absorbed()).take(8)),
    {
        let d = self.digest();
        match reduce_be(d.as_slice()) {
            Ok(v) => v,
            Err(_) => unreached(),
        }
    }
}

impl Hasher for Keccak256Hasher {
    closed spec fn absorbed(&self) -> Seq<u8> {
        self.buf@
    }

    open spec fn algo(s: Seq<u8>) -> Seq<u8> {
        keccak256_of(s)
    }

    fn absorb(&mut self, bytes: &[u8]) {
        let ghost orig = self.buf@;
        let mut i: usize = 0;
        while i < bytes.len()
            invariant
                i <= bytes@.len(),
                self.buf@ == orig + bytes@.take(i as int),
            decreases bytes@.len() - i,
        {
            self.buf.push(bytes[i]);
            proof {
                assert(bytes@.take(i + 1) =~= bytes@.take(i as int).push(bytes@[i as int]));
                assert(self.buf@ =~= orig + bytes@.take(i + 1));
            }
            i = i + 1;
        }
        proof {
            assert(bytes@.take(bytes@.len() as int) =~= bytes@);
        }
    }

    fn digest(&self) -> (d: Vec<u8>) {
        keccak256(self.buf.as_slice())
    }
}

/// A zero-size, stateless strategy: every call yields a fresh Keccak-256
/// hasher sharing no state with any other.
#[derive(Clone, Copy, Default)]
pub struct Keccak256Builder;

impl HashStrategy for Keccak256Builder {
    type H = Keccak256Hasher;

    fn create(&self) -> (h: Keccak256Hasher) {
        Keccak256Hasher::new()
    }
}

/// Determinism: two hashers of one kind that have absorbed the same byte
/// sequence finalize to the same digest, since `Hasher::digest` returns
/// `algo` of the absorbed bytes and nothing else.
pub proof fn lemma_determinism<H: Hasher>(h1: H, h2: H)
    requires
        h1.absorbed() == h2.absorbed(),
    ensures
        H::algo(h1.absorbed()) == H::algo(h2.absorbed()),
{
}

/// Concatenation law: a fresh hasher that absorbs `a` and then `b` holds the
/// accumulated sequence `(empty + a) + b`, while one that absorbs `a + b` in
/// a single call holds `empty + (a + b)`; the two sequences are equal, so by
/// `Hasher::digest` the two digests are equal as well.
pub proof fn lemma_absorb_concat<H: Hasher>(a: Seq<u8>, b: Seq<u8>)
    ensures
        H::algo(Seq::<u8>::empty() + a + b) == H::algo(Seq::<u8>::empty() + (a + b)),
{
    assert(Seq::<u8>::empty() + a + b =~= Seq::<u8>::empty() + (a + b));
}

} // verus!
