//! A fixed-size Bloom filter over entity ids: four probes per id by double
//! hashing, no false negatives.

use vstd::prelude::*;
use crate::column::{lemma_set_bit, lemma_zero_word, word_bit};
use crate::hashing::{ahash_u64, HashSeeds};

verus! {

/// Bits held by one word of the filter.
pub const BITS_PER_WORD: usize = 64;

/// Number of probes per id.
pub const NUM_PROBES: u32 = 4;

/// A Bloom filter of `N` words of [`BITS_PER_WORD`] bits each.
pub struct SimpleBloom<const N: usize> {
    bits: Vec<u64>,
    hash_builder: HashSeeds,
}

/// Bit `b` is set in `words`.
pub open spec fn bit_set(words: Seq<u64>, b: int) -> bool {
    0 <= b && b / 64 < words.len() && word_bit(words[b / 64], (b % 64) as u64)
}

/// The `i`-th probe of an id whose hash is `hash`, in a filter of `nbits`
/// bits: the low half of the hash plus `i` times the high half, as 32-bit
/// wrapping arithmetic, modulo the number of bits.
pub open spec fn probe(hash: u64, i: u32, nbits: int) -> int {
    (vstd::wrapping::u32_specs::wrapping_add(
        hash as u32,
        vstd::wrapping::u32_specs::wrapping_mul(i, (hash >> 32u64) as u32),
    ) as int) % nbits
}

/// Every probe of `hash` hits a bit of `bits`.
pub open spec fn probes_in(bits: Set<int>, hash: u64, nbits: int) -> bool {
    forall|i: u32| i < NUM_PROBES ==> bits.contains(#[trigger] probe(hash, i, nbits))
}

impl<const N: usize> SimpleBloom<N> {
    /// The filter holds `N > 0` words and its bit count fits a `usize`.
    pub closed spec fn wf(&self) -> bool {
        &&& self.bits@.len() == N
        &&& N > 0
        &&& N * 64 <= usize::MAX
    }

    /// A well-formed filter has words, and its bit count fits a `usize`.
    pub proof fn lemma_size(&self)
        requires
            self.wf(),
        ensures
            N > 0,
            N * 64 <= usize::MAX,
    {
    }

    /// The seeds the ids are hashed with.
    pub closed spec fn seeds(&self) -> HashSeeds {
        self.hash_builder
    }

    /// The set bits.
    pub closed spec fn view(&self) -> Set<int> {
        Set::new(|b: int| 0 <= b < N * 64 && bit_set(self.bits@, b))
    }

    /// The hash of `item` under the filter's seeds.
    pub open spec fn item_hash(&self, item: usize) -> u64 {
        ahash_u64(self.seeds().k0, self.seeds().k1, self.seeds().k2, self.seeds().k3, item as u64)
    }

    /// An empty filter with fresh random seeds.
    pub fn new() -> (b: Self)
        requires
            N > 0,
            N * 64 <= usize::MAX,
        ensures
            b.wf(),
            b.view() == Set::<int>::empty(),
    {
        let mut bits: Vec<u64> = Vec::new();
        let mut i: usize = 0;
        while i < N
            invariant
                i <= N,
                bits@.len() == i,
                forall|j: int| 0 <= j < i ==> bits@[j] == 0u64,
            decreases N - i,
        {
            bits.push(0u64);
            i = i + 1;
        }
        let b = SimpleBloom { bits, hash_builder: HashSeeds::random() };
        proof {
            assert forall|x: int| !b.view().contains(x) by {
                if 0 <= x < N * 64 {
                    lemma_zero_word((x % 64) as u64);
                }
            }
            assert(b.view() =~= Set::<int>::empty());
        }
        b
    }

    /// The bit index of probe `i` of `hash`.
    fn probe_index(hash: u64, i: u32) -> (p: usize)
        requires
            N > 0,
            N * 64 <= usize::MAX,
        ensures
            p == probe(hash, i, N * 64),
            p < N * 64,
    {
        let h1 = hash as u32;
        let h2 = (hash >> 32u64) as u32;
        let combined = h1.wrapping_add(i.wrapping_mul(h2)) as usize;
        combined % (N * 64)
    }

    /// Sets bit `p`.
    fn set_bit(&mut self, p: usize)
        requires
            old(self).wf(),
            p < N * 64,
        ensures
            final(self).wf(),
            final(self).seeds() == old(self).seeds(),
            final(self).view() == old(self).view().insert(p as int),
    {
        let w = p / 64;
        let b = (p % 64) as u64;
        let word = self.bits[w];
        self.bits.set(w, word | (1u64 << b));
        proof {
            assert forall|x: int| #[trigger] self.view().contains(x) == old(self).view().insert(p as int).contains(x) by {
                if 0 <= x < N * 64 && x / 64 == w as int {
                    lemma_set_bit(word, b, (x % 64) as u64);
                }
            }
            assert(self.view() =~= old(self).view().insert(p as int));
        }
    }

    /// Whether bit `p` is set.
    fn get_bit(&self, p: usize) -> (r: bool)
        requires
            self.wf(),
            p < N * 64,
        ensures
            r == self.view().contains(p as int),
    {
        let w = p / 64;
        let b = (p % 64) as u64;
        (self.bits[w] & (1u64 << b)) != 0
    }

    /// Sets the bits of every probe of `item`.
    pub fn insert(&mut self, item: usize)
        requires
            old(self).wf(),
        ensures
            final(self).wf(),
            final(self).seeds() == old(self).seeds(),
            final(self).view() == old(self).view().union(
                Set::new(|b: int| exists|i: u32| i < NUM_PROBES && b == #[trigger] probe(old(self).item_hash(item), i, N * 64)),
            ),
    {
        let hash = self.hash_builder.hash_u64(item as u64);
        let ghost h = hash;
        let mut i: u32 = 0;
        while i < NUM_PROBES
            invariant
                old(self).wf(),
                self.wf(),
                self.seeds() == old(self).seeds(),
                h == old(self).item_hash(item),
                hash == h,
                i <= NUM_PROBES,
                self.view() == old(self).view().union(
                    Set::new(|b: int| exists|j: u32| j < i && b == #[trigger] probe(h, j, N * 64)),
                ),
            decreases NUM_PROBES - i,
        {
            let p = Self::probe_index(hash, i);
            self.set_bit(p);
            proof {
                let s_old = Set::new(|b: int| exists|j: u32| j < i && b == #[trigger] probe(h, j, N * 64));
                let s_new = Set::new(|b: int| exists|j: u32| j < i + 1 && b == #[trigger] probe(h, j, N * 64));
                assert forall|b: int| #[trigger] s_new.contains(b) == s_old.insert(p as int).contains(b) by {
                    if s_new.contains(b) {
                        let j = choose|j: u32| j < i + 1 && b == #[trigger] probe(h, j, N * 64);
                        if j < i {
                            assert(s_old.contains(b));
                        }
                    }
                    if s_old.contains(b) {
                        let j = choose|j: u32| j < i && b == #[trigger] probe(h, j, N * 64);
                        assert(j < i + 1 && b == probe(h, j, N * 64));
                    }
                    if b == p as int {
                        assert(i < i + 1 && b == probe(h, i, N * 64));
                    }
                }
                assert(s_new =~= s_old.insert(p as int));
                assert(self.view() =~= old(self).view().union(s_new));
            }
            i = i + 1;
        }
    }

    /// Whether every probe of `item` hits a set bit. An id that was inserted
    /// since the filter was last cleared is always reported.
    pub fn contains(&self, item: usize) -> (r: bool)
        requires
            self.wf(),
        ensures
            r == probes_in(self.view(), self.item_hash(item), N * 64),
    {
        let hash = self.hash_builder.hash_u64(item as u64);
        let mut i: u32 = 0;
        while i < NUM_PROBES
            invariant
                self.wf(),
                hash == self.item_hash(item),
                i <= NUM_PROBES,
                forall|j: u32| j < i ==> self.view().contains(#[trigger] probe(hash, j, N * 64)),
            decreases NUM_PROBES - i,
        {
            let p = Self::probe_index(hash, i);
            if !self.get_bit(p) {
                return false;
            }
            i = i + 1;
        }
        true
    }

    /// Number of bits.
    pub fn total_bits(&self) -> (n: usize)
        requires
            self.wf(),
        ensures
            n == N * 64,
    {
        N * 64
    }

    /// Number of set bits.
    pub fn count_set_bits(&self) -> (n: usize)
        requires
            self.wf(),
        ensures
            n == self.view().len(),
    {
        let total = N * 64;
        let mut c: usize = 0;
        let mut b: usize = 0;
        while b < total
            invariant
                total == N * 64,
                self.wf(),
                b <= total,
                c <= b,
                c == set_bits_below(self.bits@, b as int),
            decreases total - b,
        {
            let w = self.bits[b / 64];
            let sh = (b % 64) as u64;
            if w & (1u64 << sh) != 0 {
                c = c + 1;
            }
            b = b + 1;
        }
        proof {
            lemma_set_bits_below(self.bits@, total as int);
            assert(self.view() =~= Set::new(|x: int| 0 <= x < total && bit_set(self.bits@, x)));
        }
        c
    }

    /// Clears every bit; the seeds are kept.
    pub fn clear(&mut self)
        requires
            old(self).wf(),
        ensures
            final(self).wf(),
            final(self).seeds() == old(self).seeds(),
            final(self).view() == Set::<int>::empty(),
    {
        let mut i: usize = 0;
        while i < self.bits.len()
            invariant
                self.wf(),
                self.seeds() == old(self).seeds(),
                i <= N,
                forall|j: int| 0 <= j < i ==> self.bits@[j] == 0u64,
            decreases N - i,
        {
            self.bits.set(i, 0u64);
            i = i + 1;
        }
        proof {
            assert forall|x: int| !self.view().contains(x) by {
                if 0 <= x < N * 64 {
                    lemma_zero_word((x % 64) as u64);
                }
            }
            assert(self.view() =~= Set::<int>::empty());
        }
    }
}

/// Number of set bits of `words` below bit `n`.
pub open spec fn set_bits_below(words: Seq<u64>, n: int) -> nat
    decreases n,
{
    if n <= 0 {
        0
    } else {
        set_bits_below(words, n - 1) + if bit_set(words, n - 1) {
            1nat
        } else {
            0nat
        }
    }
}

/// The set bits below `n` are as many as [`set_bits_below`] counts.
pub proof fn lemma_set_bits_below(words: Seq<u64>, n: int)
    requires
        n >= 0,
    ensures
        Set::new(|x: int| 0 <= x < n && bit_set(words, x)).finite(),
        Set::new(|x: int| 0 <= x < n && bit_set(words, x)).len() == set_bits_below(words, n),
    decreases n,
{
    let s = Set::new(|x: int| 0 <= x < n && bit_set(words, x));
    if n == 0 {
        assert(s =~= Set::<int>::empty());
    } else {
        lemma_set_bits_below(words, n - 1);
        let p = Set::new(|x: int| 0 <= x < n - 1 && bit_set(words, x));
        if bit_set(words, n - 1) {
            assert(s =~= p.insert(n - 1));
        } else {
            assert(s =~= p);
        }
    }
}

/// Setting more bits keeps every reported id reported: once inserted, an id
/// stays reported until the filter is cleared.
pub proof fn lemma_probes_stay(before: Set<int>, after: Set<int>, hash: u64, nbits: int)
    requires
        before.subset_of(after),
        probes_in(before, hash, nbits),
    ensures
        probes_in(after, hash, nbits),
{
}

/// After inserting an id, the filter reports it.
pub proof fn lemma_inserted_reported(before: Set<int>, hash: u64, nbits: int)
    ensures
        probes_in(
            before.union(Set::new(|b: int| exists|i: u32| i < NUM_PROBES && b == #[trigger] probe(hash, i, nbits))),
            hash,
            nbits,
        ),
{
    let s = Set::new(|b: int| exists|i: u32| i < NUM_PROBES && b == #[trigger] probe(hash, i, nbits));
    assert forall|i: u32| i < NUM_PROBES implies before.union(s).contains(#[trigger] probe(hash, i, nbits)) by {
        assert(s.contains(probe(hash, i, nbits)));
    }
}

} // verus!
