//! The symbol table of the compiler: the names bound so far, each to the
//! index of the operation that its line appended.
//!
//! The names are kept in the order of their indices. A hash map from the
//! hash of a name to the indices bound to names of that hash finds a name
//! without a walk through all of them.

use std::collections::HashMap;
use vstd::prelude::*;
use crate::program::{lemma_resolve, resolve};
use crate::text::{contents, same_bytes};

verus! {

broadcast use vstd::std_specs::hash::group_hash_axioms;

/// The hash of the empty name: the offset basis of the 64-bit FNV-1a hash.
pub const HASH_BASIS: u64 = 0xcbf2_9ce4_8422_2325;

/// The factor by which the hash is multiplied after each byte: the prime of
/// the 64-bit FNV-1a hash.
pub const HASH_PRIME: u64 = 0x0000_0100_0000_01b3;

/// The hash of a name: from the basis, for each byte in turn, the exclusive
/// or with the byte, then the product with the prime, modulo 2^64.
pub open spec fn hash_of(name: Seq<u8>) -> u64
    decreases name.len(),
{
    if name.len() == 0 {
        HASH_BASIS
    } else {
        (hash_of(name.drop_last()) ^ name.last() as u64).wrapping_mul(HASH_PRIME)
    }
}

/// Computes `hash_of`.
pub fn hash(name: &[u8]) -> (h: u64)
    ensures
        h == hash_of(name@),
{
    let mut h: u64 = HASH_BASIS;
    let mut i: usize = 0;
    while i < name.len()
        invariant
            i <= name@.len(),
            h == hash_of(name@.take(i as int)),
        decreases name@.len() - i,
    {
        assert(name@.take(i + 1).drop_last() =~= name@.take(i as int));
        h = (h ^ name[i] as u64).wrapping_mul(HASH_PRIME);
        i += 1;
    }
    assert(name@.take(i as int) =~= name@);
    h
}

/// `buckets` holds, under the hash of each name, the indices of the names
/// with that hash, in ascending order, and nothing else.
pub open spec fn indexes(buckets: Map<u64, Vec<usize>>, names: Seq<Seq<u8>>) -> bool {
    &&& forall|i: int|
        0 <= i < names.len() ==> buckets.contains_key(hash_of(#[trigger] names[i]))
            && buckets[hash_of(names[i])]@.contains(i as usize)
    &&& forall|h: u64, k: int|
        buckets.contains_key(h) && 0 <= k < buckets[h]@.len() ==> (#[trigger] buckets[h]@[k])
            < names.len() && hash_of(names[buckets[h]@[k] as int]) == h
    &&& forall|h: u64, k: int, l: int|
        buckets.contains_key(h) && 0 <= k < l < buckets[h]@.len() ==> (#[trigger] buckets[h]@[k])
            < (#[trigger] buckets[h]@[l])
}

/// The names bound so far. The name at index `i` is the name bound to `i`.
pub struct Symbols<'a> {
    names: Vec<&'a [u8]>,
    buckets: HashMap<u64, Vec<usize>>,
}

impl<'a> View for Symbols<'a> {
    type V = Seq<Seq<u8>>;

    closed spec fn view(&self) -> Seq<Seq<u8>> {
        contents(self.names@)
    }
}

impl<'a> Symbols<'a> {
    #[verifier::type_invariant]
    spec fn well_formed(self) -> bool {
        indexes(self.buckets@, contents(self.names@))
    }

    /// No names.
    pub fn new() -> (symbols: Self)
        ensures
            symbols@ == Seq::<Seq<u8>>::empty(),
    {
        let symbols = Symbols { names: Vec::new(), buckets: HashMap::new() };
        symbols
    }

    /// The number of names.
    pub fn len(&self) -> (n: usize)
        ensures
            n == self@.len(),
    {
        self.names.len()
    }

    /// The names with `name` bound to the next index.
    pub fn bind(self, name: &'a [u8]) -> (bound: Self)
        ensures
            bound@ == self@.push(name@),
    {
        proof {
            use_type_invariant(&self);
        }
        let Symbols { mut names, mut buckets } = self;
        let ghost before = contents(names@);
        let ghost buckets_before = buckets@;
        let index = names.len();
        let h = hash(name);
        let mut bucket = match buckets.remove(&h) {
            Some(bucket) => bucket,
            None => Vec::new(),
        };
        let ghost bucket_before = bucket@;
        bucket.push(index);
        let ghost grown = bucket;
        buckets.insert(h, bucket);
        names.push(name);
        proof {
            let after = contents(names@);
            assert(after =~= before.push(name@));
            assert(buckets@ =~= buckets_before.insert(h, grown));
            assert(buckets_before.contains_key(h) ==> bucket_before == buckets_before[h]@);
            // Every index is in the bucket of its name.
            assert forall|i: int| 0 <= i < after.len() implies buckets@.contains_key(
                hash_of(#[trigger] after[i]),
            ) && buckets@[hash_of(after[i])]@.contains(i as usize) by {
                if i < before.len() {
                    assert(after[i] == before[i]);
                    let g = hash_of(before[i]);
                    if g == h {
                        let k = choose|k: int|
                            0 <= k < bucket_before.len() && bucket_before[k] == i as usize;
                        assert(grown@[k] == i as usize);
                    }
                } else {
                    assert(grown@[grown@.len() - 1] == index);
                }
            }
            // A bucket holds indices of names with its hash.
            assert forall|g: u64, k: int|
                buckets@.contains_key(g) && 0 <= k < buckets@[g]@.len() implies (
            #[trigger] buckets@[g]@[k]) < after.len() && hash_of(
                after[buckets@[g]@[k] as int],
            ) == g by {
                if g == h {
                    if k < bucket_before.len() {
                        assert(grown@[k] == bucket_before[k]);
                        assert(buckets_before[h]@[k] < before.len());
                    }
                } else {
                    assert(buckets_before[g]@[k] < before.len());
                }
                assert(after[buckets@[g]@[k] as int] == if buckets@[g]@[k] < before.len() {
                    before[buckets@[g]@[k] as int]
                } else {
                    name@
                });
            }
            // A bucket ascends: the new index is above all that it held.
            assert forall|g: u64, k: int, l: int|
                buckets@.contains_key(g) && 0 <= k < l < buckets@[g]@.len() implies (
            #[trigger] buckets@[g]@[k]) < (#[trigger] buckets@[g]@[l]) by {
                if g == h {
                    if l < bucket_before.len() {
                        assert(buckets_before[h]@[k] < buckets_before[h]@[l]);
                    } else {
                        assert(buckets_before.contains_key(h) ==> buckets_before[h]@[k]
                            < before.len());
                    }
                } else {
                    assert(buckets_before[g]@[k] < buckets_before[g]@[l]);
                }
            }
        }
        Symbols { names, buckets }
    }

    /// The index that `name` is bound to, if it is bound.
    pub fn resolve(&self, name: &[u8]) -> (index: Option<usize>)
        ensures
            index == resolve(self@, name@),
    {
        proof {
            use_type_invariant(self);
            lemma_resolve(self@, name@);
            assert(self@.len() == self.names.len());
        }
        let h = hash(name);
        match self.buckets.get(&h) {
            // No name has this hash.
            None => {
                proof {
                    if resolve(self@, name@) is Some {
                        let i = choose|i: int| 0 <= i < self@.len() && #[trigger] self@[i] == name@;
                        assert(self.buckets@.contains_key(hash_of(self@[i])));
                    }
                }
                None
            },
            // Every index bound to `name` is in this bucket, and the bucket
            // ascends: its last index with the name is the latest binding.
            Some(bucket) => {
                let mut k: usize = bucket.len();
                while k > 0
                    invariant
                        k <= bucket@.len(),
                        self.buckets@.contains_key(h),
                        self.buckets@[h] == *bucket,
                        h == hash_of(name@),
                        indexes(self.buckets@, self@),
                        self@.len() <= usize::MAX,
                        forall|l: int| k <= l < bucket@.len() ==> self@[bucket@[l] as int] != name@,
                    decreases k,
                {
                    let candidate = bucket[k - 1];
                    assert(self.buckets@[h]@[k - 1] < self@.len());
                    if same_bytes(self.names[candidate], name) {
                        proof {
                            assert(self@[candidate as int] == name@);
                            assert forall|i: int| candidate < i < self@.len() implies self@[i]
                                != name@ by {
                                if self@[i] == name@ {
                                    assert(self.buckets@[h]@.contains(i as usize));
                                    let l = choose|l: int|
                                        0 <= l < bucket@.len() && bucket@[l] == i as usize;
                                    if l < k - 1 {
                                        assert(self.buckets@[h]@[l] < self.buckets@[h]@[k - 1]);
                                    }
                                }
                            }
                            lemma_resolve(self@, name@);
                        }
                        return Some(candidate);
                    }
                    k -= 1;
                }
                proof {
                    if resolve(self@, name@) is Some {
                        let i = choose|i: int| 0 <= i < self@.len() && #[trigger] self@[i] == name@;
                        assert(self.buckets@[h]@.contains(i as usize));
                        let l = choose|l: int| 0 <= l < bucket@.len() && bucket@[l] == i as usize;
                        assert(self@[bucket@[l] as int] != name@);
                    }
                }
                None
            },
        }
    }
}

} // verus!
