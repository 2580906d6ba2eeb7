//! The associative container.
//!
//! A key/value store whose bucket selection is fully pluggable: each
//! operation asks the strategy for a fresh hasher, feeds the key's bytes in,
//! reduces the digest's first eight bytes to a 64-bit integer under the byte
//! order fixed at construction, and takes that integer modulo the bucket
//! count. Keys that collide share a bucket and are told apart by true key
//! equality, never by hash equality. When the load factor passes one entry
//! per bucket, the bucket count doubles and every entry is rehashed under
//! the same strategy and reducer.

use vstd::prelude::*;
use vstd::arithmetic::div_mod::lemma_mod_bound;
use crate::hashing::{HashStrategy, Hasher};
use crate::reduce::{reduce, reduced_value, lemma_reduced_nonneg, ByteOrder};

verus! {

/// A generic key/value store over byte-sequence keys, parameterized by the
/// hash strategy that selects buckets.
pub struct AssocMap<S: HashStrategy, V> {
    strategy: S,
    order: ByteOrder,
    buckets: Vec<Vec<(Vec<u8>, V)>>,
    entries: usize,
}

impl<S: HashStrategy, V> AssocMap<S, V> {
    /// The bucket index the fixed strategy and byte order assign to a key:
    /// the key's digest, reduced under the byte order, modulo the bucket
    /// count.
    spec fn bucket_of(self, k: Seq<u8>) -> int {
        reduced_value(self.order, <S::H as Hasher>::algo(k)) % (self.buckets@.len() as int)
    }

    /// What scanning a bucket front to back by key equality yields.
    spec fn bucket_find(b: Seq<(Vec<u8>, V)>, k: Seq<u8>) -> Option<V>
        decreases b.len(),
    {
        if b.len() == 0 {
            None
        } else if b[0].0@ == k {
            Some(b[0].1)
        } else {
            Self::bucket_find(b.drop_first(), k)
        }
    }

    /// No two entries of the bucket share a key.
    spec fn distinct_keys(b: Seq<(Vec<u8>, V)>) -> bool {
        forall|j1: int, j2: int|
            #![trigger b[j1], b[j2]]
            0 <= j1 < j2 < b.len() ==> b[j1].0@ != b[j2].0@
    }

    /// How many entries the bucket array holds in all.
    spec fn total_entries(bs: Seq<Vec<(Vec<u8>, V)>>) -> int
        decreases bs.len(),
    {
        if bs.len() == 0 {
            0
        } else {
            Self::total_entries(bs.drop_last()) + bs.last()@.len()
        }
    }

    /// The value associated with the byte key `k`, if any.
    pub closed spec fn spec_get(self, k: Seq<u8>) -> Option<V> {
        if self.buckets@.len() == 0 {
            None
        } else {
            Self::bucket_find(self.buckets@[self.bucket_of(k)]@, k)
        }
    }

    /// How many entries the container holds.
    pub closed spec fn spec_len(self) -> nat {
        self.entries as nat
    }

    /// The byte order fixed at construction.
    pub closed spec fn spec_order(self) -> ByteOrder {
        self.order
    }

    /// How many buckets the container currently has.
    pub closed spec fn spec_bucket_count(self) -> nat {
        self.buckets@.len()
    }

    /// Well-formedness: at least one bucket; every entry sits in the bucket
    /// its key hashes to; no bucket holds two entries with one key; the
    /// entry count matches what the buckets hold.
    pub closed spec fn wf(self) -> bool {
        &&& self.buckets@.len() > 0
        &&& forall|i: int, j: int|
            #![trigger self.buckets@[i]@[j]]
            0 <= i < self.buckets@.len() && 0 <= j < self.buckets@[i]@.len()
                ==> self.bucket_of(self.buckets@[i]@[j].0@) == i
        &&& forall|i: int|
            0 <= i < self.buckets@.len() ==> Self::distinct_keys(#[trigger] self.buckets@[i]@)
        &&& self.entries == Self::total_entries(self.buckets@)
    }

    /// A key's bucket index is within the bucket array.
    proof fn lemma_bucket_in_range(self, k: Seq<u8>)
        requires
            self.buckets@.len() > 0,
        ensures
            0 <= self.bucket_of(k) < self.buckets@.len(),
    {
        lemma_reduced_nonneg(self.order, <S::H as Hasher>::algo(k));
        lemma_mod_bound(
            reduced_value(self.order, <S::H as Hasher>::algo(k)),
            self.buckets@.len() as int,
        );
    }

    /// Scanning a bucket with distinct keys finds the entry that carries the
    /// key.
    proof fn lemma_find_present(b: Seq<(Vec<u8>, V)>, k: Seq<u8>, j: int)
        requires
            0 <= j < b.len(),
            b[j].0@ == k,
            Self::distinct_keys(b),
        ensures
            Self::bucket_find(b, k) == Some(b[j].1),
        decreases j,
    {
        if j > 0 {
            assert(b[0].0@ != k);
            assert(Self::distinct_keys(b.drop_first())) by {
                assert forall|j1: int, j2: int|
                    0 <= j1 < j2 < b.drop_first().len() implies #[trigger] b.drop_first()[j1].0@
                    != #[trigger] b.drop_first()[j2].0@ by {
                    assert(b.drop_first()[j1] == b[j1 + 1]);
                    assert(b.drop_first()[j2] == b[j2 + 1]);
                }
            }
            assert(b.drop_first()[j - 1] == b[j]);
            Self::lemma_find_present(b.drop_first(), k, j - 1);
        }
    }

    /// Scanning a bucket yields nothing exactly when no entry carries the
    /// key.
    proof fn lemma_find_none(b: Seq<(Vec<u8>, V)>, k: Seq<u8>)
        ensures
            (Self::bucket_find(b, k) is None) <==> (forall|t: int|
                0 <= t < b.len() ==> (#[trigger] b[t]).0@ != k),
        decreases b.len(),
    {
        if b.len() > 0 {
            Self::lemma_find_none(b.drop_first(), k);
            assert forall|t: int| 0 <= t < b.drop_first().len() implies #[trigger] b.drop_first()[t]
                == b[t + 1] by {}
            if b[0].0@ != k && Self::bucket_find(b.drop_first(), k) is None {
                assert forall|t: int| 0 <= t < b.len() implies (#[trigger] b[t]).0@ != k by {
                    if t > 0 {
                        assert(b[t] == b.drop_first()[t - 1]);
                    }
                }
            }
        }
    }

    /// Appending an entry leaves every other key's scan unchanged and makes
    /// the new key found if it was absent.
    proof fn lemma_find_push(b: Seq<(Vec<u8>, V)>, e: (Vec<u8>, V), k: Seq<u8>)
        ensures
            Self::bucket_find(b.push(e), k) == (if Self::bucket_find(b, k) is Some {
                Self::bucket_find(b, k)
            } else if e.0@ == k {
                Some(e.1)
            } else {
                None::<V>
            }),
        decreases b.len(),
    {
        if b.len() == 0 {
            assert(b.push(e)[0] == e);
            assert(Self::bucket_find(b, k) is None);
            assert(b.push(e).drop_first() =~= Seq::<(Vec<u8>, V)>::empty());
            if e.0@ == k {
                assert(Self::bucket_find(b.push(e), k) == Some(e.1));
            } else {
                assert(Self::bucket_find(b.push(e), k) == Self::bucket_find(
                    b.push(e).drop_first(),
                    k,
                ));
            }
        } else {
            Self::lemma_find_push(b.drop_first(), e, k);
            assert(b.push(e)[0] == b[0]);
            assert(b.push(e).drop_first() =~= b.drop_first().push(e));
            if b[0].0@ == k {
                assert(Self::bucket_find(b.push(e), k) == Some(b[0].1));
                assert(Self::bucket_find(b, k) == Some(b[0].1));
            } else {
                assert(Self::bucket_find(b.push(e), k) == Self::bucket_find(
                    b.drop_first().push(e),
                    k,
                ));
                assert(Self::bucket_find(b, k) == Self::bucket_find(b.drop_first(), k));
            }
        }
    }

    /// Replacing the entry at `j` leaves the scan for any key different from
    /// both the old and the new entry's key unchanged.
    proof fn lemma_find_update(b: Seq<(Vec<u8>, V)>, j: int, e: (Vec<u8>, V), k: Seq<u8>)
        requires
            0 <= j < b.len(),
            b[j].0@ != k,
            e.0@ != k,
        ensures
            Self::bucket_find(b.update(j, e), k) == Self::bucket_find(b, k),
        decreases j,
    {
        if j == 0 {
            assert(b.update(0, e)[0] == e);
            assert(b.update(0, e).drop_first() =~= b.drop_first());
        } else {
            Self::lemma_find_update(b.drop_first(), j - 1, e, k);
            assert(b.update(j, e)[0] == b[0]);
            assert(b.update(j, e).drop_first() =~= b.drop_first().update(j - 1, e));
        }
    }

    /// Removing the entry at `j` leaves the scan for any key other than that
    /// entry's unchanged.
    proof fn lemma_find_remove(b: Seq<(Vec<u8>, V)>, j: int, k: Seq<u8>)
        requires
            0 <= j < b.len(),
            b[j].0@ != k,
        ensures
            Self::bucket_find(b.remove(j), k) == Self::bucket_find(b, k),
        decreases j,
    {
        if j == 0 {
            assert(b.remove(0) =~= b.drop_first());
        } else {
            Self::lemma_find_remove(b.drop_first(), j - 1, k);
            assert(b.remove(j)[0] == b[0]);
            assert(b.remove(j).drop_first() =~= b.drop_first().remove(j - 1));
        }
    }

    /// An entry count is never negative.
    proof fn lemma_total_nonneg(bs: Seq<Vec<(Vec<u8>, V)>>)
        ensures
            Self::total_entries(bs) >= 0,
        decreases bs.len(),
    {
        if bs.len() > 0 {
            Self::lemma_total_nonneg(bs.drop_last());
        }
    }

    /// Replacing one bucket changes the entry count by the difference of the
    /// bucket lengths.
    proof fn lemma_total_update(bs: Seq<Vec<(Vec<u8>, V)>>, i: int, b: Vec<(Vec<u8>, V)>)
        requires
            0 <= i < bs.len(),
        ensures
            Self::total_entries(bs.update(i, b)) == Self::total_entries(bs) - bs[i]@.len()
                + b@.len(),
        decreases bs.len(),
    {
        if i == bs.len() - 1 {
            assert(bs.update(i, b).drop_last() =~= bs.drop_last());
            assert(bs.update(i, b).last() == b);
        } else {
            Self::lemma_total_update(bs.drop_last(), i, b);
            assert(bs.update(i, b).drop_last() =~= bs.drop_last().update(i, b));
            assert(bs.update(i, b).last() == bs.last());
            assert(bs.drop_last()[i] == bs[i]);
        }
    }

    /// The entry count is at least any single bucket's length.
    proof fn lemma_total_at_least(bs: Seq<Vec<(Vec<u8>, V)>>, i: int)
        requires
            0 <= i < bs.len(),
        ensures
            Self::total_entries(bs) >= bs[i]@.len(),
        decreases bs.len(),
    {
        if i == bs.len() - 1 {
            Self::lemma_total_nonneg(bs.drop_last());
        } else {
            Self::lemma_total_at_least(bs.drop_last(), i);
            assert(bs.drop_last()[i] == bs[i]);
        }
    }

    /// An all-empty bucket array holds no entries.
    proof fn lemma_total_empty(bs: Seq<Vec<(Vec<u8>, V)>>)
        requires
            forall|t: int| 0 <= t < bs.len() ==> (#[trigger] bs[t])@.len() == 0,
        ensures
            Self::total_entries(bs) == 0,
        decreases bs.len(),
    {
        if bs.len() > 0 {
            assert forall|t: int|
                0 <= t < bs.drop_last().len() implies (#[trigger] bs.drop_last()[t])@.len()
                == 0 by {
                assert(bs.drop_last()[t] == bs[t]);
            }
            Self::lemma_total_empty(bs.drop_last());
        }
    }

    /// Compute the bucket index for a key: a fresh hasher from the strategy
    /// absorbs the key's bytes, the digest is reduced under the fixed byte
    /// order, and the result is taken modulo the bucket count.
    fn bucket_index(&self, key: &Vec<u8>) -> (idx: usize)
        requires
            self.buckets@.len() > 0,
        ensures
            idx == self.bucket_of(key@),
    {
        let mut h = self.strategy.create();
        h.absorb(key.as_slice());
        proof {
            assert(h.absorbed() =~= key@);
        }
        let d = h.digest();
        let r = match reduce(self.order, d.as_slice()) {
            Ok(v) => v,
            Err(_) => unreached(),
        };
        let count = self.buckets.len();
        let idx = (r % (count as u64)) as usize;
        proof {
            lemma_mod_bound(r as int, count as int);
        }
        idx
    }

    /// True key equality: byte-for-byte comparison, independent of any hash.
    fn bytes_equal(a: &Vec<u8>, b: &Vec<u8>) -> (eq: bool)
        ensures
            eq == (a@ == b@),
    {
        if a.len() != b.len() {
            return false;
        }
        let mut i: usize = 0;
        while i < a.len()
            invariant
                i <= a@.len(),
                a@.len() == b@.len(),
                forall|t: int| 0 <= t < i ==> a@[t] == b@[t],
            decreases a@.len() - i,
        {
            if a[i] != b[i] {
                return false;
            }
            i = i + 1;
        }
        proof {
            assert(a@ =~= b@);
        }
        true
    }

    /// Scan a bucket for an entry whose key equals `key`.
    fn find_in_bucket(b: &Vec<(Vec<u8>, V)>, key: &Vec<u8>) -> (r: Option<usize>)
        ensures
            match r {
                Some(j) => j < b@.len() && b@[j as int].0@ == key@,
                None => forall|t: int| 0 <= t < b@.len() ==> (#[trigger] b@[t]).0@ != key@,
            },
    {
        let mut j: usize = 0;
        while j < b.len()
            invariant
                j <= b@.len(),
                forall|t: int| 0 <= t < j ==> (#[trigger] b@[t]).0@ != key@,
            decreases b@.len() - j,
        {
            if Self::bytes_equal(&b[j].0, key) {
                return Some(j);
            }
            j = j + 1;
        }
        None
    }

    /// A container with the given strategy, starting bucket count, and byte
    /// order; it holds nothing.
    pub fn new(strategy: S, initial_bucket_count: usize, order: ByteOrder) -> (m: Self)
        requires
            initial_bucket_count >= 1,
        ensures
            m.wf(),
            m.spec_len() == 0,
            m.spec_order() == order,
            m.spec_bucket_count() == initial_bucket_count,
            forall|k: Seq<u8>| m.spec_get(k) is None,
    {
        let mut buckets: Vec<Vec<(Vec<u8>, V)>> = Vec::new();
        let mut i: usize = 0;
        while i < initial_bucket_count
            invariant
                i <= initial_bucket_count,
                buckets@.len() == i,
                forall|t: int| 0 <= t < i ==> (#[trigger] buckets@[t])@.len() == 0,
            decreases initial_bucket_count - i,
        {
            buckets.push(Vec::new());
            i = i + 1;
        }
        let m = AssocMap { strategy, order, buckets, entries: 0 };
        proof {
            Self::lemma_total_empty(m.buckets@);
            assert forall|k: Seq<u8>| m.spec_get(k) is None by {
                m.lemma_bucket_in_range(k);
            }
        }
        m
    }

    /// Insert without growing: place `key` in the bucket its hash selects,
    /// replacing the entry in place when an equal key is present and
    /// appending otherwise.
    fn insert_no_grow(&mut self, key: Vec<u8>, value: V) -> (prev: Option<V>)
        requires
            old(self).wf(),
            old(self).entries < usize::MAX,
        ensures
            final(self).wf(),
            final(self).buckets@.len() == old(self).buckets@.len(),
            final(self).order == old(self).order,
            final(self).spec_get(key@) == Some(value),
            forall|k: Seq<u8>| k != key@ ==> final(self).spec_get(k) == old(self).spec_get(k),
            prev == old(self).spec_get(key@),
            final(self).entries == old(self).entries + (if old(self).spec_get(key@) is Some {
                0int
            } else {
                1int
            }),
    {
        let idx = self.bucket_index(&key);
        proof {
            self.lemma_bucket_in_range(key@);
        }
        let ghost old_buckets = self.buckets@;
        let ghost old_b = self.buckets@[idx as int]@;
        let pos = Self::find_in_bucket(&self.buckets[idx], &key);
        match pos {
            Some(j) => {
                proof {
                    Self::lemma_find_present(old_b, key@, j as int);
                }
                let b = &mut self.buckets[idx];
                let prev_entry = b.remove(j);
                b.insert(j, (key, value));
                proof {
                    let new_b = self.buckets@[idx as int]@;
                    assert(new_b =~= old_b.update(j as int, (key, value)));
                    assert(self.buckets@ =~= old_buckets.update(
                        idx as int,
                        self.buckets@[idx as int],
                    ));
                    assert(Self::distinct_keys(new_b)) by {
                        assert forall|j1: int, j2: int|
                            0 <= j1 < j2 < new_b.len() implies new_b[j1].0@ != new_b[j2].0@ by {
                            assert(old_b[j1].0@ != old_b[j2].0@);
                        }
                    }
                    assert(self.wf()) by {
                        assert forall|i: int, t: int|
                            0 <= i < self.buckets@.len() && 0 <= t < self.buckets@[i]@.len()
                            implies self.bucket_of(#[trigger] self.buckets@[i]@[t].0@) == i by {
                            if i == idx as int && t == j as int {
                                assert(self.buckets@[i]@[t].0@ == key@);
                            } else {
                                assert(self.buckets@[i]@[t] == old(self).buckets@[i]@[t]);
                            }
                        }
                        Self::lemma_total_update(old_buckets, idx as int, self.buckets@[idx as int]);
                    }
                    assert(final(self).spec_get(key@) == Some(value)) by {
                        Self::lemma_find_present(new_b, key@, j as int);
                    }
                    assert forall|k: Seq<u8>| k != key@ implies self.spec_get(k) == old(
                        self,
                    ).spec_get(k) by {
                        old(self).lemma_bucket_in_range(k);
                        if self.bucket_of(k) == idx as int {
                            Self::lemma_find_update(old_b, j as int, (key, value), k);
                        } else {
                            assert(self.buckets@[self.bucket_of(k)] == old(
                                self,
                            ).buckets@[self.bucket_of(k)]);
                        }
                    }
                }
                Some(prev_entry.1)
            },
            None => {
                proof {
                    Self::lemma_find_none(old_b, key@);
                }
                let b = &mut self.buckets[idx];
                b.push((key, value));
                self.entries = self.entries + 1;
                proof {
                    let new_b = self.buckets@[idx as int]@;
                    assert(new_b == old_b.push((key, value)));
                    assert(self.buckets@ =~= old_buckets.update(
                        idx as int,
                        self.buckets@[idx as int],
                    ));
                    assert(Self::distinct_keys(new_b)) by {
                        assert forall|j1: int, j2: int|
                            0 <= j1 < j2 < new_b.len() implies new_b[j1].0@ != new_b[j2].0@ by {
                            if j2 < old_b.len() {
                                assert(old_b[j1].0@ != old_b[j2].0@);
                            } else {
                                assert(new_b[j2].0@ == key@);
                                assert(old_b[j1].0@ != key@);
                            }
                        }
                    }
                    assert(self.wf()) by {
                        assert forall|i: int, t: int|
                            0 <= i < self.buckets@.len() && 0 <= t < self.buckets@[i]@.len()
                            implies self.bucket_of(#[trigger] self.buckets@[i]@[t].0@) == i by {
                            if i == idx as int && t == old_b.len() {
                                assert(self.buckets@[i]@[t].0@ == key@);
                            } else {
                                assert(self.buckets@[i]@[t] == old(self).buckets@[i]@[t]);
                            }
                        }
                        Self::lemma_total_update(old_buckets, idx as int, self.buckets@[idx as int]);
                    }
                    Self::lemma_find_push(old_b, (key, value), key@);
                    assert forall|k: Seq<u8>| k != key@ implies self.spec_get(k) == old(
                        self,
                    ).spec_get(k) by {
                        old(self).lemma_bucket_in_range(k);
                        if self.bucket_of(k) == idx as int {
                            Self::lemma_find_push(old_b, (key, value), k);
                        } else {
                            assert(self.buckets@[self.bucket_of(k)] == old(
                                self,
                            ).buckets@[self.bucket_of(k)]);
                        }
                    }
                }
                None
            },
        }
    }

    /// Rebuild the bucket array with `new_count` buckets: every entry is
    /// recomputed into its new bucket through the same strategy and reducer,
    /// never copied by old index, since the modulus changed. No intermediate
    /// state escapes: the caller sees only the finished table.
    fn rehash(&mut self, new_count: usize)
        requires
            old(self).wf(),
            new_count >= 1,
        ensures
            final(self).wf(),
            final(self).buckets@.len() == new_count,
            final(self).order == old(self).order,
            forall|k: Seq<u8>| final(self).spec_get(k) == old(self).spec_get(k),
            final(self).entries == old(self).entries,
    {
        let ghost orig = *self;
        let mut fresh: Vec<Vec<(Vec<u8>, V)>> = Vec::new();
        let mut n: usize = 0;
        while n < new_count
            invariant
                n <= new_count,
                fresh@.len() == n,
                forall|t: int| 0 <= t < n ==> (#[trigger] fresh@[t])@.len() == 0,
            decreases new_count - n,
        {
            fresh.push(Vec::new());
            n = n + 1;
        }
        core::mem::swap(&mut self.buckets, &mut fresh);
        self.entries = 0;
        proof {
            Self::lemma_total_empty(self.buckets@);
            assert(self.wf());
            assert forall|k: Seq<u8>|
                self.spec_get(k) == (if Self::bucket_find(fresh@[orig.bucket_of(k)]@, k) is Some {
                    None::<V>
                } else {
                    orig.spec_get(k)
                }) by {
                self.lemma_bucket_in_range(k);
                orig.lemma_bucket_in_range(k);
            }
            assert forall|t: int|
                0 <= t < fresh@.len() implies (#[trigger] fresh@[t])@ == orig.buckets@[t]@.take(
                fresh@[t]@.len() as int,
            ) by {
                assert(fresh@[t]@ =~= orig.buckets@[t]@.take(fresh@[t]@.len() as int));
            }
        }
        let mut i: usize = 0;
        while i < fresh.len()
            invariant
                self.wf(),
                self.order == orig.order,
                self.buckets@.len() == new_count,
                i <= fresh@.len(),
                fresh@.len() == orig.buckets@.len(),
                orig.wf(),
                forall|t: int|
                    0 <= t < fresh@.len() ==> (#[trigger] fresh@[t])@.len()
                        <= orig.buckets@[t]@.len(),
                forall|t: int|
                    0 <= t < fresh@.len() ==> (#[trigger] fresh@[t])@ == orig.buckets@[t]@.take(
                        fresh@[t]@.len() as int,
                    ),
                forall|t: int| 0 <= t < i ==> (#[trigger] fresh@[t])@.len() == 0,
                self.entries as int + Self::total_entries(fresh@) == orig.entries as int,
                forall|k: Seq<u8>|
                    #![trigger self.spec_get(k)]
                    self.spec_get(k) == (if Self::bucket_find(
                        fresh@[orig.bucket_of(k)]@,
                        k,
                    ) is Some {
                        None::<V>
                    } else {
                        orig.spec_get(k)
                    }),
            decreases fresh@.len() - i,
        {
            while fresh[i].len() > 0
                invariant
                    self.wf(),
                    self.order == orig.order,
                    self.buckets@.len() == new_count,
                    i < fresh@.len(),
                    fresh@.len() == orig.buckets@.len(),
                    orig.wf(),
                    forall|t: int|
                        0 <= t < fresh@.len() ==> (#[trigger] fresh@[t])@.len()
                            <= orig.buckets@[t]@.len(),
                    forall|t: int|
                        0 <= t < fresh@.len() ==> (#[trigger] fresh@[t])@ == orig.buckets@[t]@.take(
                            fresh@[t]@.len() as int,
                        ),
                    forall|t: int| 0 <= t < i ==> (#[trigger] fresh@[t])@.len() == 0,
                    self.entries as int + Self::total_entries(fresh@) == orig.entries as int,
                    forall|k: Seq<u8>|
                        #![trigger self.spec_get(k)]
                        self.spec_get(k) == (if Self::bucket_find(
                            fresh@[orig.bucket_of(k)]@,
                            k,
                        ) is Some {
                            None::<V>
                        } else {
                            orig.spec_get(k)
                        }),
                decreases fresh@[i as int]@.len(),
            {
                let ghost fresh_before = fresh@;
                let ghost rem = fresh@[i as int]@;
                let ghost orig_b = orig.buckets@[i as int]@;
                let b = &mut fresh[i];
                let e = match b.pop() {
                    Some(e) => e,
                    None => unreached(),
                };
                let ghost l = rem.len() as int;
                proof {
                    assert(fresh@ =~= fresh_before.update(i as int, fresh@[i as int]));
                    assert(fresh@[i as int]@ =~= rem.drop_last());
                    assert(e == rem[l - 1]);
                    assert(rem == orig_b.take(l));
                    assert(l <= orig_b.len());
                    assert(e == orig_b[l - 1]);
                    assert(orig.buckets@[i as int]@[l - 1] == e);
                    assert(orig.bucket_of(e.0@) == i as int);
                    assert(Self::distinct_keys(orig_b));
                    assert(Self::distinct_keys(rem)) by {
                        assert forall|j1: int, j2: int|
                            0 <= j1 < j2 < rem.len() implies rem[j1].0@ != rem[j2].0@ by {
                            assert(rem[j1] == orig_b[j1]);
                            assert(rem[j2] == orig_b[j2]);
                        }
                    }
                    Self::lemma_find_present(rem, e.0@, l - 1);
                    assert(self.spec_get(e.0@) is None);
                    Self::lemma_total_update(fresh_before, i as int, fresh@[i as int]);
                    Self::lemma_total_at_least(fresh_before, i as int);
                    Self::lemma_total_nonneg(fresh@);
                }
                let ghost self_before = *self;
                let _prev = self.insert_no_grow(e.0, e.1);
                proof {
                    assert forall|k: Seq<u8>|
                        self.spec_get(k) == (if Self::bucket_find(
                            fresh@[orig.bucket_of(k)]@,
                            k,
                        ) is Some {
                            None::<V>
                        } else {
                            orig.spec_get(k)
                        }) by {
                        orig.lemma_bucket_in_range(k);
                        let bk = orig.bucket_of(k);
                        if k == e.0@ {
                            assert(self.spec_get(k) == Some(e.1));
                            assert(Self::bucket_find(fresh@[bk]@, k) is None) by {
                                Self::lemma_find_none(rem.drop_last(), k);
                                assert forall|t: int|
                                    0 <= t < rem.drop_last().len() implies (#[trigger] rem.drop_last()[t]).0@
                                    != k by {
                                    assert(rem.drop_last()[t] == rem[t]);
                                }
                            }
                            Self::lemma_find_present(orig_b, k, l - 1);
                            assert(orig.spec_get(k) == Some(e.1));
                        } else {
                            assert(self.spec_get(k) == self_before.spec_get(k));
                            if bk == i as int {
                                Self::lemma_find_remove(rem, l - 1, k);
                                assert(rem.remove(l - 1) =~= rem.drop_last());
                            } else {
                                assert(fresh@[bk] == fresh_before[bk]);
                            }
                        }
                    }
                }
            }
            proof {
                assert(fresh@[i as int]@.len() == 0);
                assert forall|t: int| 0 <= t < i + 1 implies (#[trigger] fresh@[t])@.len()
                    == 0 by {}
            }
            i = i + 1;
        }
        proof {
            Self::lemma_total_empty(fresh@);
            assert forall|k: Seq<u8>| self.spec_get(k) == orig.spec_get(k) by {
                orig.lemma_bucket_in_range(k);
                assert(fresh@[orig.bucket_of(k)]@.len() == 0);
            }
        }
    }

    /// Insert `key` with `value`: if an entry with an equal key exists in
    /// the selected bucket its value is replaced, otherwise a new entry is
    /// appended; the previous value, if any, is returned. When the load
    /// factor then exceeds one entry per bucket, the bucket count doubles
    /// and every entry is rehashed under the same strategy and reducer.
    pub fn insert(&mut self, key: Vec<u8>, value: V) -> (prev: Option<V>)
        requires
            old(self).wf(),
            old(self).spec_len() < usize::MAX,
        ensures
            final(self).wf(),
            final(self).spec_order() == old(self).spec_order(),
            final(self).spec_get(key@) == Some(value),
            forall|k: Seq<u8>| k != key@ ==> final(self).spec_get(k) == old(self).spec_get(k),
            prev == old(self).spec_get(key@),
            final(self).spec_len() == old(self).spec_len() + (if old(self).spec_get(
                key@,
            ) is Some {
                0int
            } else {
                1int
            }),
    {
        let prev = self.insert_no_grow(key, value);
        if self.entries > self.buckets.len() && self.buckets.len() <= usize::MAX / 2 {
            let new_count = self.buckets.len() * 2;
            self.rehash(new_count);
        }
        prev
    }

    /// Remove `key`'s entry if one is present and return its value; the
    /// order of the remaining entries in its bucket is preserved.
    pub fn remove(&mut self, key: &Vec<u8>) -> (prev: Option<V>)
        requires
            old(self).wf(),
        ensures
            final(self).wf(),
            final(self).spec_order() == old(self).spec_order(),
            final(self).spec_get(key@) is None,
            forall|k: Seq<u8>| k != key@ ==> final(self).spec_get(k) == old(self).spec_get(k),
            prev == old(self).spec_get(key@),
            final(self).spec_len() == old(self).spec_len() - (if old(self).spec_get(
                key@,
            ) is Some {
                1int
            } else {
                0int
            }),
    {
        let idx = self.bucket_index(key);
        proof {
            self.lemma_bucket_in_range(key@);
        }
        let ghost old_buckets = self.buckets@;
        let ghost old_b = self.buckets@[idx as int]@;
        let pos = Self::find_in_bucket(&self.buckets[idx], key);
        match pos {
            Some(j) => {
                proof {
                    Self::lemma_find_present(old_b, key@, j as int);
                    Self::lemma_total_at_least(old_buckets, idx as int);
                }
                let b = &mut self.buckets[idx];
                let e = b.remove(j);
                self.entries = self.entries - 1;
                proof {
                    let new_b = self.buckets@[idx as int]@;
                    assert(new_b == old_b.remove(j as int));
                    assert(self.buckets@ =~= old_buckets.update(
                        idx as int,
                        self.buckets@[idx as int],
                    ));
                    assert forall|t: int|
                        0 <= t < new_b.len() implies new_b[t] == (if t < j as int {
                        old_b[t]
                    } else {
                        old_b[t + 1]
                    }) by {}
                    assert(Self::distinct_keys(new_b)) by {
                        assert forall|j1: int, j2: int|
                            0 <= j1 < j2 < new_b.len() implies new_b[j1].0@ != new_b[j2].0@ by {}
                    }
                    assert(self.wf()) by {
                        assert forall|i: int, t: int|
                            0 <= i < self.buckets@.len() && 0 <= t < self.buckets@[i]@.len()
                            implies self.bucket_of(#[trigger] self.buckets@[i]@[t].0@) == i by {
                            if i != idx as int {
                                assert(self.buckets@[i]@[t] == old(self).buckets@[i]@[t]);
                            }
                        }
                        Self::lemma_total_update(old_buckets, idx as int, self.buckets@[idx as int]);
                    }
                    assert(self.spec_get(key@) is None) by {
                        Self::lemma_find_none(new_b, key@);
                        assert forall|t: int|
                            0 <= t < new_b.len() implies (#[trigger] new_b[t]).0@ != key@ by {}
                    }
                    assert forall|k: Seq<u8>| k != key@ implies self.spec_get(k) == old(
                        self,
                    ).spec_get(k) by {
                        old(self).lemma_bucket_in_range(k);
                        if self.bucket_of(k) == idx as int {
                            Self::lemma_find_remove(old_b, j as int, k);
                        } else {
                            assert(self.buckets@[self.bucket_of(k)] == old(
                                self,
                            ).buckets@[self.bucket_of(k)]);
                        }
                    }
                }
                Some(e.1)
            },
            None => {
                proof {
                    Self::lemma_find_none(old_b, key@);
                }
                None
            },
        }
    }

    /// An owned copy of a byte key.
    fn copy_key(a: &Vec<u8>) -> (r: Vec<u8>)
        ensures
            r@ == a@,
    {
        let mut r: Vec<u8> = Vec::new();
        let mut i: usize = 0;
        while i < a.len()
            invariant
                i <= a@.len(),
                r@ == a@.take(i as int),
            decreases a@.len() - i,
        {
            r.push(a[i]);
            proof {
                assert(a@.take(i + 1) =~= a@.take(i as int).push(a@[i as int]));
            }
            i = i + 1;
        }
        proof {
            assert(a@.take(a@.len() as int) =~= a@);
        }
        r
    }

    /// Walk every entry and hand back its key, as an owned copy: all
    /// buckets, in bucket-internal insertion order. Every key the container
    /// associates a value with appears, and nothing else does.
    pub fn keys(&self) -> (ks: Vec<Vec<u8>>)
        requires
            self.wf(),
        ensures
            ks@.len() == self.spec_len(),
            forall|t: int| 0 <= t < ks@.len() ==> self.spec_get((#[trigger] ks@[t])@) is Some,
            forall|k: Seq<u8>|
                self.spec_get(k) is Some ==> exists|t: int|
                    0 <= t < ks@.len() && (#[trigger] ks@[t])@ == k,
    {
        let mut ks: Vec<Vec<u8>> = Vec::new();
        let mut i: usize = 0;
        while i < self.buckets.len()
            invariant
                self.wf(),
                i <= self.buckets@.len(),
                ks@.len() == Self::total_entries(self.buckets@.take(i as int)),
                forall|t: int| 0 <= t < ks@.len() ==> self.spec_get((#[trigger] ks@[t])@) is Some,
                forall|k: Seq<u8>|
                    self.bucket_of(k) < i && self.spec_get(k) is Some ==> exists|t: int|
                        0 <= t < ks@.len() && (#[trigger] ks@[t])@ == k,
            decreases self.buckets@.len() - i,
        {
            let ghost b = self.buckets@[i as int]@;
            let mut j: usize = 0;
            while j < self.buckets[i].len()
                invariant
                    self.wf(),
                    i < self.buckets@.len(),
                    b == self.buckets@[i as int]@,
                    j <= b.len(),
                    ks@.len() == Self::total_entries(self.buckets@.take(i as int)) + j,
                    forall|t: int|
                        0 <= t < ks@.len() ==> self.spec_get((#[trigger] ks@[t])@) is Some,
                    forall|k: Seq<u8>|
                        self.bucket_of(k) < i && self.spec_get(k) is Some ==> exists|t: int|
                            0 <= t < ks@.len() && (#[trigger] ks@[t])@ == k,
                    forall|k: Seq<u8>|
                        self.bucket_of(k) == i && Self::bucket_find(b.take(j as int), k) is Some
                            ==> exists|t: int| 0 <= t < ks@.len() && (#[trigger] ks@[t])@ == k,
                decreases b.len() - j,
            {
                let ghost ks_before = ks@;
                let k = Self::copy_key(&self.buckets[i][j].0);
                ks.push(k);
                proof {
                    assert(ks@ =~= ks_before.push(ks@[ks@.len() - 1]));
                    assert(ks@[ks@.len() - 1]@ == b[j as int].0@);
                    assert(self.spec_get(b[j as int].0@) is Some) by {
                        Self::lemma_find_present(b, b[j as int].0@, j as int);
                    }
                    assert forall|k2: Seq<u8>|
                        self.bucket_of(k2) < i && self.spec_get(k2) is Some implies exists|t: int|
                        0 <= t < ks@.len() && (#[trigger] ks@[t])@ == k2 by {
                        let t = choose|t: int|
                            0 <= t < ks_before.len() && (#[trigger] ks_before[t])@ == k2;
                        assert(ks@[t]@ == k2);
                    }
                    assert forall|k2: Seq<u8>|
                        self.bucket_of(k2) == i && Self::bucket_find(
                            b.take(j + 1),
                            k2,
                        ) is Some implies exists|t: int|
                        0 <= t < ks@.len() && (#[trigger] ks@[t])@ == k2 by {
                        if Self::bucket_find(b.take(j as int), k2) is Some {
                            let t = choose|t: int|
                                0 <= t < ks_before.len() && (#[trigger] ks_before[t])@ == k2;
                            assert(ks@[t]@ == k2);
                        } else {
                            Self::lemma_find_none(b.take(j as int), k2);
                            Self::lemma_find_none(b.take(j + 1), k2);
                            let u = choose|u: int|
                                0 <= u < b.take(j + 1).len() && (#[trigger] b.take(j + 1)[u]).0@
                                    == k2;
                            assert(b.take(j + 1)[u] == b[u]);
                            assert(u == j as int);
                            assert(ks@[ks@.len() - 1]@ == k2);
                        }
                    }
                }
                j = j + 1;
            }
            proof {
                assert(b.take(b.len() as int) =~= b);
                assert(self.buckets@.take(i + 1).drop_last() =~= self.buckets@.take(i as int));
                assert(self.buckets@.take(i + 1).last() == self.buckets@[i as int]);
                assert forall|k: Seq<u8>|
                    self.bucket_of(k) < i + 1 && self.spec_get(k) is Some implies exists|t: int|
                    0 <= t < ks@.len() && (#[trigger] ks@[t])@ == k by {
                    if self.bucket_of(k) == i as int {
                        assert(Self::bucket_find(b.take(b.len() as int), k) is Some);
                    }
                }
            }
            i = i + 1;
        }
        proof {
            assert(self.buckets@.take(self.buckets@.len() as int) =~= self.buckets@);
            assert forall|k: Seq<u8>| self.spec_get(k) is Some implies exists|t: int|
                0 <= t < ks@.len() && (#[trigger] ks@[t])@ == k by {
                self.lemma_bucket_in_range(k);
            }
        }
        ks
    }

    /// How many entries the container holds.
    pub fn len(&self) -> (n: usize)
        ensures
            n == self.spec_len(),
    {
        self.entries
    }

    /// How many buckets the container currently has.
    pub fn bucket_count(&self) -> (n: usize)
        requires
            self.wf(),
        ensures
            n == self.spec_bucket_count(),
            n >= 1,
    {
        self.buckets.len()
    }

    /// Look up `key`: the same hash-and-reduce chain as on insertion selects
    /// the bucket, and the bucket is scanned by key equality.
    pub fn get(&self, key: &Vec<u8>) -> (r: Option<&V>)
        requires
            self.wf(),
        ensures
            match r {
                Some(v) => self.spec_get(key@) == Some(*v),
                None => self.spec_get(key@) is None,
            },
    {
        let idx = self.bucket_index(key);
        proof {
            self.lemma_bucket_in_range(key@);
        }
        let b = &self.buckets[idx];
        match Self::find_in_bucket(b, key) {
            Some(j) => {
                proof {
                    Self::lemma_find_present(b@, key@, j as int);
                }
                Some(&b[j].1)
            },
            None => {
                proof {
                    Self::lemma_find_none(b@, key@);
                }
                None
            },
        }
    }
}

} // verus!
