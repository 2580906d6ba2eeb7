//! Reduction of a wide digest to a fixed-width unsigned integer.
//!
//! A digest is reduced by reading its first eight bytes as a 64-bit integer
//! under a byte order chosen once, at construction time, by the container
//! that uses the reduction. A digest shorter than eight bytes is rejected,
//! never padded or truncated silently.

use vstd::prelude::*;

verus! {

/// The byte order under which a digest's leading bytes are read.
#[derive(Debug, PartialEq, Eq, Structural, Clone, Copy)]
pub enum ByteOrder {
    /// The byte at position `i` contributes `value * 256^i`.
    Little,
    /// The byte at position `i` contributes `value * 256^(n-1-i)`.
    Big,
}

/// Why a digest could not be reduced.
#[derive(Debug, PartialEq, Eq, Structural, Clone, Copy)]
pub enum ReduceError {
    /// The digest holds fewer bytes than the reduction needs.
    LengthError { required: usize, actual: usize },
}

/// The value of a byte sequence read least-significant byte first.
pub open spec fn le_value(s: Seq<u8>) -> int
    decreases s.len(),
{
    if s.len() == 0 {
        0
    } else {
        s[0] + 256 * le_value(s.drop_first())
    }
}

/// The value of a byte sequence read most-significant byte first.
pub open spec fn be_value(s: Seq<u8>) -> int
    decreases s.len(),
{
    if s.len() == 0 {
        0
    } else {
        256 * be_value(s.drop_last()) + s.last()
    }
}

/// `256^n`.
pub open spec fn pow256(n: nat) -> int
    decreases n,
{
    if n == 0 {
        1
    } else {
        256 * pow256((n - 1) as nat)
    }
}

/// What reducing a digest under a byte order yields: the value of its first
/// eight bytes under that order.
pub open spec fn reduced_value(order: ByteOrder, digest: Seq<u8>) -> int
    recommends
        digest.len() >= 8,
{
    match order {
        ByteOrder::Little => le_value(digest.take(8)),
        ByteOrder::Big => be_value(digest.take(8)),
    }
}

/// A byte sequence read least-significant byte first is non-negative and
/// below `256^len`.
pub proof fn lemma_le_value_bound(s: Seq<u8>)
    ensures
        0 <= le_value(s) < pow256(s.len()),
    decreases s.len(),
{
    if s.len() > 0 {
        lemma_le_value_bound(s.drop_first());
    }
}

/// A byte sequence read most-significant byte first is non-negative and
/// below `256^len`.
pub proof fn lemma_be_value_bound(s: Seq<u8>)
    ensures
        0 <= be_value(s) < pow256(s.len()),
    decreases s.len(),
{
    if s.len() > 0 {
        lemma_be_value_bound(s.drop_last());
    }
}

/// Byte-order law: a sequence read most-significant byte first has the same
/// value as its reversal read least-significant byte first. For an eight-byte
/// sequence `S` this is `big_endian(S) == little_endian(reverse(S))`.
pub proof fn lemma_byte_order(s: Seq<u8>)
    ensures
        be_value(s) == le_value(s.reverse()),
    decreases s.len(),
{
    if s.len() == 0 {
        assert(s.reverse() =~= Seq::<u8>::empty());
    } else {
        lemma_byte_order(s.drop_last());
        assert(s.reverse().drop_first() =~= s.drop_last().reverse());
        assert(s.reverse()[0] == s.last());
        assert(le_value(s.reverse()) == s.last() + 256 * le_value(s.drop_last().reverse()));
    }
}

/// A reduction under either byte order is non-negative.
pub proof fn lemma_reduced_nonneg(order: ByteOrder, digest: Seq<u8>)
    ensures
        reduced_value(order, digest) >= 0,
{
    match order {
        ByteOrder::Little => lemma_le_value_bound(digest.take(8)),
        ByteOrder::Big => lemma_be_value_bound(digest.take(8)),
    }
}

/// Reduce the first eight bytes of `digest` to a `u64`, least-significant
/// byte first; reject a digest shorter than eight bytes.
pub fn reduce_le(digest: &[u8]) -> (r: Result<u64, ReduceError>)
    ensures
        r is Ok <==> digest@.len() >= 8,
        r matches Ok(v) ==> v as int == le_value(digest@.take(8)),
        r matches Err(e) ==> e == (ReduceError::LengthError {
            required: 8usize,
            actual: digest@.len() as usize,
        }),
{
    if digest.len() < 8 {
        return Err(ReduceError::LengthError { required: 8, actual: digest.len() });
    }
    let ghost first8 = digest@.take(8);
    let mut acc: u64 = 0;
    let mut i: usize = 8;
    while i > 0
        invariant
            i <= 8,
            digest@.len() >= 8,
            first8 == digest@.take(8),
            acc as int == le_value(first8.skip(i as int)),
            acc < pow256((8 - i) as nat),
        decreases i,
    {
        proof {
            assert(first8.skip(i - 1).drop_first() =~= first8.skip(i as int));
            assert(first8.skip(i - 1)[0] == digest@[i - 1]);
            lemma_pow256_le_max((8 - i + 1) as nat);
        }
        i = i - 1;
        acc = (digest[i] as u64) + 256 * acc;
    }
    proof {
        assert(first8.skip(0) =~= first8);
    }
    Ok(acc)
}

/// Reduce the first eight bytes of `digest` to a `u64`, most-significant
/// byte first; reject a digest shorter than eight bytes.
pub fn reduce_be(digest: &[u8]) -> (r: Result<u64, ReduceError>)
    ensures
        r is Ok <==> digest@.len() >= 8,
        r matches Ok(v) ==> v as int == be_value(digest@.take(8)),
        r matches Err(e) ==> e == (ReduceError::LengthError {
            required: 8usize,
            actual: digest@.len() as usize,
        }),
{
    if digest.len() < 8 {
        return Err(ReduceError::LengthError { required: 8, actual: digest.len() });
    }
    let ghost first8 = digest@.take(8);
    let mut acc: u64 = 0;
    let mut i: usize = 0;
    while i < 8
        invariant
            i <= 8,
            digest@.len() >= 8,
            first8 == digest@.take(8),
            acc as int == be_value(first8.take(i as int)),
            acc < pow256(i as nat),
        decreases 8 - i,
    {
        proof {
            assert(first8.take(i + 1).drop_last() =~= first8.take(i as int));
            assert(first8.take(i + 1).last() == digest@[i as int]);
            lemma_pow256_le_max((i + 1) as nat);
        }
        acc = 256 * acc + (digest[i] as u64);
        i = i + 1;
    }
    proof {
        assert(first8.take(8) =~= first8);
    }
    Ok(acc)
}

/// Reduce the first eight bytes of `digest` under the given byte order.
pub fn reduce(order: ByteOrder, digest: &[u8]) -> (r: Result<u64, ReduceError>)
    ensures
        r is Ok <==> digest@.len() >= 8,
        r matches Ok(v) ==> v as int == reduced_value(order, digest@),
        r matches Err(e) ==> e == (ReduceError::LengthError {
            required: 8usize,
            actual: digest@.len() as usize,
        }),
{
    match order {
        ByteOrder::Little => reduce_le(digest),
        ByteOrder::Big => reduce_be(digest),
    }
}

/// `256^n` is at least one.
proof fn lemma_pow256_pos(n: nat)
    ensures
        pow256(n) >= 1,
    decreases n,
{
    if n > 0 {
        lemma_pow256_pos((n - 1) as nat);
    }
}

/// `256^n` stays within `u64` range while `n` is at most eight.
proof fn lemma_pow256_le_max(n: nat)
    requires
        n <= 8,
    ensures
        pow256(n) <= 0x1_0000_0000_0000_0000,
    decreases 8 - n,
{
    if n == 8 {
        assert(pow256(8) == 0x1_0000_0000_0000_0000) by {
            reveal_with_fuel(pow256, 9);
        }
    } else {
        lemma_pow256_le_max(n + 1);
        lemma_pow256_pos(n);
        assert(pow256(n + 1) == 256 * pow256(n));
    }
}

} // verus!
