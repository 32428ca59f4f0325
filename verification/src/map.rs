//! An open-addressing hash map with linear probing and tombstones.

use vstd::prelude::*;
use crate::hashing::{HashSeeds, MapKey};

verus! {

/// One slot of the table.
#[derive(Clone, Debug)]
pub enum Bucket<K, V> {
    Empty,
    Deleted,
    Occupied(K, V),
}

pub open spec fn bkey<K, V>(b: Bucket<K, V>) -> K
    recommends b is Occupied,
{
    b->Occupied_0
}

pub open spec fn bval<K, V>(b: Bucket<K, V>) -> V
    recommends b is Occupied,
{
    b->Occupied_1
}

/// The entries of the occupied slots of `s`, in slot order, keys by view.
pub open spec fn occupied_entries<K: View, V>(s: Seq<Bucket<K, V>>) -> Seq<(K::V, V)>
    decreases s.len(),
{
    if s.len() == 0 {
        Seq::empty()
    } else {
        match s.last() {
            Bucket::Occupied(k, v) => occupied_entries(s.drop_last()).push((k@, v)),
            _ => occupied_entries(s.drop_last()),
        }
    }
}

/// Number of `Empty` slots.
pub open spec fn count_empty<K, V>(s: Seq<Bucket<K, V>>) -> nat
    decreases s.len(),
{
    if s.len() == 0 {
        0
    } else {
        count_empty(s.drop_last()) + if s.last() is Empty { 1nat } else { 0nat }
    }
}

/// Number of `Deleted` slots.
pub open spec fn count_deleted<K, V>(s: Seq<Bucket<K, V>>) -> nat
    decreases s.len(),
{
    if s.len() == 0 {
        0
    } else {
        count_deleted(s.drop_last()) + if s.last() is Deleted { 1nat } else { 0nat }
    }
}

pub proof fn lemma_count_deleted_update<K, V>(s: Seq<Bucket<K, V>>, i: int, b: Bucket<K, V>)
    requires
        0 <= i < s.len(),
    ensures
        count_deleted(s.update(i, b)) + (if s[i] is Deleted { 1int } else { 0int }) == count_deleted(s)
            + (if b is Deleted { 1int } else { 0int }),
    decreases s.len(),
{
    let t = s.update(i, b);
    if i == s.len() - 1 {
        assert(t.drop_last() =~= s.drop_last());
    } else {
        assert(t.drop_last() =~= s.drop_last().update(i, b));
        lemma_count_deleted_update(s.drop_last(), i, b);
    }
}

pub proof fn lemma_count_deleted_none<K, V>(n: nat)
    ensures
        count_deleted(Seq::new(n, |i: int| Bucket::<K, V>::Empty)) == 0,
    decreases n,
{
    if n > 0 {
        assert(Seq::new(n, |i: int| Bucket::<K, V>::Empty).drop_last() =~= Seq::new(
            (n - 1) as nat,
            |i: int| Bucket::<K, V>::Empty,
        ));
        lemma_count_deleted_none::<K, V>((n - 1) as nat);
    }
}

/// The slot reached after `t` steps of probing from `start` in a table of
/// `cap` slots.
pub open spec fn probe(start: int, t: int, cap: int) -> int {
    if start + t < cap {
        start + t
    } else {
        start + t - cap
    }
}

/// How many probing steps lead from `start` to slot `i`.
pub open spec fn dist(start: int, i: int, cap: int) -> int {
    if i >= start {
        i - start
    } else {
        i + cap - start
    }
}

pub proof fn lemma_probe_dist(start: int, i: int, cap: int)
    requires
        0 <= start < cap,
        0 <= i < cap,
    ensures
        0 <= dist(start, i, cap) < cap,
        probe(start, dist(start, i, cap), cap) == i,
{
}

pub proof fn lemma_dist_probe(start: int, t: int, cap: int)
    requires
        0 <= start < cap,
        0 <= t < cap,
    ensures
        0 <= probe(start, t, cap) < cap,
        dist(start, probe(start, t, cap), cap) == t,
{
}

pub proof fn lemma_count_empty_update<K, V>(s: Seq<Bucket<K, V>>, i: int, b: Bucket<K, V>)
    requires
        0 <= i < s.len(),
    ensures
        count_empty(s.update(i, b)) + (if s[i] is Empty { 1int } else { 0int }) == count_empty(s)
            + (if b is Empty { 1int } else { 0int }),
    decreases s.len(),
{
    let t = s.update(i, b);
    if i == s.len() - 1 {
        assert(t.drop_last() =~= s.drop_last());
    } else {
        assert(t.drop_last() =~= s.drop_last().update(i, b));
        lemma_count_empty_update(s.drop_last(), i, b);
    }
}

pub proof fn lemma_count_same_shape<K, V>(s1: Seq<Bucket<K, V>>, s2: Seq<Bucket<K, V>>)
    requires
        s1.len() == s2.len(),
        forall|j: int| 0 <= j < s1.len() ==> (s1[j] is Empty <==> s2[j] is Empty),
        forall|j: int| 0 <= j < s1.len() ==> (s1[j] is Deleted <==> s2[j] is Deleted),
    ensures
        count_empty(s1) == count_empty(s2),
        count_deleted(s1) == count_deleted(s2),
    decreases s1.len(),
{
    if s1.len() > 0 {
        lemma_count_same_shape(s1.drop_last(), s2.drop_last());
    }
}

pub proof fn lemma_count_empty_pos<K, V>(s: Seq<Bucket<K, V>>)
    requires
        count_empty(s) > 0,
    ensures
        exists|e: int| 0 <= e < s.len() && s[e] is Empty,
    decreases s.len(),
{
    if s.last() is Empty {
        assert(s[s.len() - 1] is Empty);
    } else {
        lemma_count_empty_pos(s.drop_last());
        let e = choose|e: int| 0 <= e < s.drop_last().len() && s.drop_last()[e] is Empty;
        assert(s[e] is Empty);
    }
}

pub proof fn lemma_count_empty_all<K, V>(n: nat)
    ensures
        count_empty(Seq::new(n, |i: int| Bucket::<K, V>::Empty)) == n,
    decreases n,
{
    if n > 0 {
        assert(Seq::new(n, |i: int| Bucket::<K, V>::Empty).drop_last() =~= Seq::new(
            (n - 1) as nat,
            |i: int| Bucket::<K, V>::Empty,
        ));
        lemma_count_empty_all::<K, V>((n - 1) as nat);
    }
}

pub proof fn lemma_count_empty_le<K, V>(s: Seq<Bucket<K, V>>)
    ensures
        count_empty(s) <= s.len(),
    decreases s.len(),
{
    if s.len() > 0 {
        lemma_count_empty_le(s.drop_last());
    }
}

/// Largest number of slots a table may have; keeps the load-factor
/// arithmetic `(len + tombstones + 1) * 10` and `slots * 7` inside `usize`.
pub const MAX_SLOTS: usize = usize::MAX / 16;

/// Largest number of entries `insert` accepts before it would need a table
/// larger than [`MAX_SLOTS`].
pub const MAX_ENTRIES: usize = usize::MAX / 64;

pub open spec fn is_pow2(n: int) -> bool
    decreases n,
{
    if n <= 0 {
        false
    } else if n == 1 {
        true
    } else {
        n % 2 == 0 && is_pow2(n / 2)
    }
}

/// The smallest power of two that is at least `x`, as `usize::next_power_of_two`
/// computes it.
pub fn next_power_of_two(x: usize) -> (r: usize)
    requires
        x <= usize::MAX / 4,
    ensures
        is_pow2(r as int),
        r >= x,
        r == 1 || r / 2 < x,
{
    let mut p: usize = 1;
    while p < x
        invariant
            is_pow2(p as int),
            1 <= p <= usize::MAX / 2,
            p == 1 || p / 2 < x,
            x <= usize::MAX / 4,
        decreases 2 * x - p,
    {
        assert(is_pow2((p * 2) as int)) by {
            assert((p * 2) / 2 == p);
        }
        p = p * 2;
    }
    p
}

/// A hash map keyed by the views of its keys.
#[verifier::reject_recursive_types(K)]
pub struct AHashMap<K: View, V> {
    hasher: HashSeeds,
    table: Vec<Bucket<K, V>>,
    len: usize,
    deleted_count: usize,
    index: Ghost<Map<K::V, int>>,
}

impl<K: MapKey, V> View for AHashMap<K, V> {
    type V = Map<K::V, V>;

    closed spec fn view(&self) -> Map<K::V, V> {
        self.index@.map_values(|i: int| bval(self.table@[i]))
    }
}

impl<K: MapKey, V> AHashMap<K, V> {
    /// The slot where probing for a key with view `kv` starts.
    pub closed spec fn home(&self, kv: K::V) -> int {
        ((K::spec_hash(self.hasher, kv) as usize) as int) % (self.table@.len() as int)
    }

    pub closed spec fn chain_ok(&self, i: int) -> bool {
        let cap = self.table@.len() as int;
        let h = self.home(bkey(self.table@[i])@);
        forall|t: int| 0 <= t < dist(h, i, cap) ==> !(#[trigger] self.table@[probe(h, t, cap)] is Empty)
    }

    /// The table's invariant.
    pub closed spec fn wf(&self) -> bool {
        let cap = self.table@.len() as int;
        &&& cap <= MAX_SLOTS
        &&& self.len + self.deleted_count + count_empty(self.table@) == cap
        &&& self.deleted_count == count_deleted(self.table@)
        &&& (cap == 0 || self.len + self.deleted_count < cap)
        &&& self.index@.dom().finite()
        &&& self.len == self.index@.dom().len()
        &&& forall|kv: K::V| #[trigger]
            self.index@.contains_key(kv) ==> {
                &&& 0 <= self.index@[kv] < cap
                &&& self.table@[self.index@[kv]] is Occupied
                &&& bkey(self.table@[self.index@[kv]])@ == kv
            }
        &&& forall|i: int|
            0 <= i < cap && (#[trigger] self.table@[i]) is Occupied ==> {
                &&& self.index@.contains_key(bkey(self.table@[i])@)
                &&& self.index@[bkey(self.table@[i])@] == i
                &&& self.chain_ok(i)
            }
    }

    /// Number of slots of the table.
    pub closed spec fn capacity(&self) -> nat {
        self.table@.len()
    }

    /// Number of tombstones.
    pub closed spec fn tombstones(&self) -> nat {
        self.deleted_count as nat
    }

    /// The seeds this map hashes with.
    pub closed spec fn seeds(&self) -> HashSeeds {
        self.hasher
    }
}


impl<K: MapKey, V> AHashMap<K, V> {
    /// An empty map with fresh random seeds and no slots.
    pub fn new() -> (m: Self)
        ensures
            m.wf(),
            m@ == Map::<K::V, V>::empty(),
            m.capacity() == 0,
    {
        Self::with_hasher(HashSeeds::random())
    }

    /// An empty map hashing with the given seeds.
    pub fn with_hasher(hasher: HashSeeds) -> (m: Self)
        ensures
            m.wf(),
            m@ == Map::<K::V, V>::empty(),
            m.capacity() == 0,
            m.seeds() == hasher,
    {
        let m = Self {
            hasher,
            table: Vec::new(),
            len: 0,
            deleted_count: 0,
            index: Ghost(Map::empty()),
        };
        assert(m@ =~= Map::<K::V, V>::empty());
        m
    }

    /// An empty map whose table has room for `capacity` entries: its slot
    /// count is the next power of two of one and a half times `capacity`, at
    /// least eight.
    pub fn with_capacity(capacity: usize) -> (m: Self)
        requires
            capacity <= MAX_ENTRIES,
        ensures
            m.wf(),
            m@ == Map::<K::V, V>::empty(),
            is_pow2(m.capacity() as int),
            m.capacity() >= 8,
            m.capacity() >= capacity * 3 / 2,
            m.capacity() == 8 || m.capacity() / 2 < capacity * 3 / 2,
    {
        let p = next_power_of_two(capacity * 3 / 2);
        let cap = if p < 8 { 8 } else { p };
        proof {
            reveal_with_fuel(is_pow2, 5);
        }
        let table = Self::empty_table(cap);
        let m = Self {
            hasher: HashSeeds::random(),
            table,
            len: 0,
            deleted_count: 0,
            index: Ghost(Map::empty()),
        };
        assert(m@ =~= Map::<K::V, V>::empty());
        m
    }

    fn empty_table(cap: usize) -> (t: Vec<Bucket<K, V>>)
        ensures
            t@.len() == cap,
            count_empty(t@) == cap,
            count_deleted(t@) == 0,
            forall|i: int| 0 <= i < cap ==> (#[trigger] t@[i]) is Empty,
    {
        let mut table: Vec<Bucket<K, V>> = Vec::with_capacity(cap);
        let mut j: usize = 0;
        while j < cap
            invariant
                j <= cap,
                table@ =~= Seq::new(j as nat, |i: int| Bucket::<K, V>::Empty),
            decreases cap - j,
        {
            table.push(Bucket::Empty);
            j = j + 1;
        }
        proof {
            lemma_count_empty_all::<K, V>(cap as nat);
            lemma_count_deleted_none::<K, V>(cap as nat);
        }
        table
    }

    /// Number of entries.
    pub fn len(&self) -> (n: usize)
        requires
            self.wf(),
        ensures
            n == self@.len(),
    {
        proof {
            self.lemma_view_dom();
        }
        self.len
    }

    /// Whether the map has no entry.
    pub fn is_empty(&self) -> (b: bool)
        requires
            self.wf(),
        ensures
            b == (self@.len() == 0),
    {
        proof {
            self.lemma_view_dom();
        }
        self.len == 0
    }

    /// Removes every entry and every slot.
    pub fn clear(&mut self)
        requires
            old(self).wf(),
        ensures
            final(self).wf(),
            final(self)@ == Map::<K::V, V>::empty(),
            final(self).capacity() == 0,
            final(self).seeds() == old(self).seeds(),
    {
        self.table.clear();
        self.len = 0;
        self.deleted_count = 0;
        self.index = Ghost(Map::empty());
        assert(self@ =~= Map::<K::V, V>::empty());
    }

    proof fn lemma_view_dom(&self)
        requires
            self.wf(),
        ensures
            self@.dom() == self.index@.dom(),
            self@.len() == self.len,
    {
        assert(self@.dom() =~= self.index@.dom());
    }

    /// A well-formed map has finitely many entries.
    pub proof fn lemma_finite(&self)
        requires
            self.wf(),
        ensures
            self@.dom().finite(),
    {
        self.lemma_view_dom();
    }

    /// The slot that holds `key`, if any.
    fn find_slot(&self, key: &K) -> (r: Option<usize>)
        requires
            self.wf(),
        ensures
            match r {
                Some(i) => {
                    &&& self.index@.contains_key(key@)
                    &&& self.index@[key@] == i
                    &&& i < self.table@.len()
                },
                None => !self.index@.contains_key(key@),
            },
    {
        if self.table.len() == 0 {
            return None;
        }
        let h = key.key_hash(&self.hasher);
        let cap = self.table.len();
        let start = (h as usize) % cap;
        assert(start == self.home(key@));
        let mut idx = start;
        let mut t: usize = 0;
        loop
            invariant
                self.wf(),
                cap == self.table@.len(),
                cap > 0,
                start == self.home(key@),
                0 <= start < cap,
                0 <= t < cap,
                idx == probe(start as int, t as int, cap as int),
                forall|u: int|
                    0 <= u < t ==> {
                        let b = #[trigger] self.table@[probe(start as int, u, cap as int)];
                        !(b is Empty) && !(b is Occupied && bkey(b)@ == key@)
                    },
            decreases cap - t,
        {
            let found = match &self.table[idx] {
                Bucket::Empty => {
                    proof {
                        self.lemma_absent_at_empty(key@, start as int, t as int);
                    }
                    return None;
                },
                Bucket::Deleted => false,
                Bucket::Occupied(k, _) => k.key_eq(key),
            };
            if found {
                return Some(idx);
            }
            proof {
                if t + 1 == cap {
                    self.lemma_probe_covers(start as int, (t + 1) as int);
                }
            }
            idx = if idx + 1 == cap { 0 } else { idx + 1 };
            t = t + 1;
        }
    }

    /// Probing for `kv` from its home that meets an `Empty` slot after `t`
    /// non-matching steps shows that `kv` is absent.
    proof fn lemma_absent_at_empty(&self, kv: K::V, start: int, t: int)
        requires
            self.wf(),
            start == self.home(kv),
            0 <= start < self.table@.len(),
            0 <= t < self.table@.len(),
            self.table@[probe(start, t, self.table@.len() as int)] is Empty,
            forall|u: int|
                0 <= u < t ==> {
                    let b = #[trigger] self.table@[probe(start, u, self.table@.len() as int)];
                    !(b is Empty) && !(b is Occupied && bkey(b)@ == kv)
                },
        ensures
            !self.index@.contains_key(kv),
    {
        let cap = self.table@.len() as int;
        if self.index@.contains_key(kv) {
            let i0 = self.index@[kv];
            assert(self.table@[i0] is Occupied);
            assert(bkey(self.table@[i0])@ == kv);
            assert(self.chain_ok(i0));
            lemma_probe_dist(start, i0, cap);
            let d0 = dist(start, i0, cap);
            if d0 < t {
                assert(self.table@[probe(start, d0, cap)] == self.table@[i0]);
            } else if d0 > t {
                assert(!(self.table@[probe(start, t, cap)] is Empty));
            }
        }
    }

    /// A full round of probing from any start meets an empty slot.
    proof fn lemma_probe_covers(&self, start: int, n: int)
        requires
            self.wf(),
            0 <= start < self.table@.len(),
            n == self.table@.len(),
        ensures
            exists|u: int|
                0 <= u < n && (#[trigger] self.table@[probe(start, u, self.table@.len() as int)]) is Empty,
    {
        let cap = self.table@.len() as int;
        lemma_count_empty_pos(self.table@);
        let e = choose|e: int| 0 <= e < self.table@.len() && self.table@[e] is Empty;
        lemma_probe_dist(start, e, cap);
        assert(self.table@[probe(start, dist(start, e, cap), cap)] is Empty);
    }

    /// The value stored under `key`.
    pub fn get(&self, key: &K) -> (r: Option<&V>)
        requires
            self.wf(),
        ensures
            match r {
                Some(v) => self@.contains_key(key@) && self@[key@] == *v,
                None => !self@.contains_key(key@),
            },
    {
        match self.find_slot(key) {
            Some(i) => match &self.table[i] {
                Bucket::Occupied(_, v) => Some(v),
                _ => {
                    proof {
                        assert(false);
                    }
                    None
                },
            },
            None => None,
        }
    }

    /// Whether some entry has `key`.
    pub fn contains_key(&self, key: &K) -> (b: bool)
        requires
            self.wf(),
        ensures
            b == self@.contains_key(key@),
    {
        self.get(key).is_some()
    }
}

impl<K: MapKey, V> AHashMap<K, V> {
    /// Placing a key that the table lacks into a non-occupied slot reached by
    /// probing through non-empty slots from the key's home keeps the invariant.
    proof fn lemma_place(pre: &Self, post: &Self, kv: K::V, pos: int, start: int, pt: int)
        requires
            pre.wf(),
            post.hasher == pre.hasher,
            post.table@.len() == pre.table@.len(),
            0 <= pos < pre.table@.len(),
            !(pre.table@[pos] is Occupied),
            post.table@[pos] is Occupied,
            bkey(post.table@[pos])@ == kv,
            forall|j: int| 0 <= j < pre.table@.len() && j != pos ==> post.table@[j] == pre.table@[j],
            !pre.index@.contains_key(kv),
            start == pre.home(kv),
            0 <= start < pre.table@.len(),
            0 <= pt < pre.table@.len(),
            pos == probe(start, pt, pre.table@.len() as int),
            forall|u: int|
                0 <= u < pt ==> !(#[trigger] pre.table@[probe(start, u, pre.table@.len() as int)] is Empty),
            post.index@ == pre.index@.insert(kv, pos),
            post.len == pre.len + 1,
            post.deleted_count + (if pre.table@[pos] is Deleted { 1int } else { 0int }) == pre.deleted_count,
            pre.len + pre.deleted_count + 1 < pre.table@.len(),
        ensures
            post.wf(),
    {
        let cap = pre.table@.len() as int;
        assert(post.table@ =~= pre.table@.update(pos, post.table@[pos]));
        lemma_count_empty_update(pre.table@, pos, post.table@[pos]);
        lemma_count_deleted_update(pre.table@, pos, post.table@[pos]);
        assert forall|k: K::V| #[trigger] post.index@.contains_key(k) implies {
            &&& 0 <= post.index@[k] < cap
            &&& post.table@[post.index@[k]] is Occupied
            &&& bkey(post.table@[post.index@[k]])@ == k
        } by {
            if k != kv {
                assert(pre.index@.contains_key(k));
                assert(pre.table@[pre.index@[k]] is Occupied);
            }
        }
        assert forall|i: int| 0 <= i < cap && (#[trigger] post.table@[i]) is Occupied implies {
            &&& post.index@.contains_key(bkey(post.table@[i])@)
            &&& post.index@[bkey(post.table@[i])@] == i
            &&& post.chain_ok(i)
        } by {
            if i == pos {
                assert(post.home(kv) == start);
                lemma_dist_probe(start, pt, cap);
                assert forall|t: int| 0 <= t < dist(start, i, cap) implies !(#[trigger] post.table@[probe(start, t, cap)] is Empty) by {
                    lemma_dist_probe(start, t, cap);
                    if probe(start, t, cap) != pos {
                        assert(!(pre.table@[probe(start, t, cap)] is Empty));
                    }
                }
            } else {
                assert(pre.table@[i] is Occupied);
                let k = bkey(pre.table@[i])@;
                assert(pre.index@.contains_key(k));
                assert(k != kv);
                assert(pre.chain_ok(i));
                let h = pre.home(k);
                assert(post.home(k) == h);
                assert forall|t: int| 0 <= t < dist(h, i, cap) implies !(#[trigger] post.table@[probe(h, t, cap)] is Empty) by {
                    if probe(h, t, cap) != pos {
                        assert(!(pre.table@[probe(h, t, cap)] is Empty));
                    }
                }
            }
        }
        assert(post.index@.dom() =~= pre.index@.dom().insert(kv));
    }

    /// Adds `key -> value` when the table has room for one more entry, probing
    /// from the key's home; the first tombstone met is reused. Returns the
    /// value that `key` had.
    fn insert_no_resize(&mut self, key: K, value: V) -> (r: Option<V>)
        requires
            old(self).wf(),
            old(self).len + old(self).deleted_count + 1 < old(self).table@.len(),
        ensures
            final(self).wf(),
            final(self)@ == old(self)@.insert(key@, value),
            r == (if old(self)@.contains_key(key@) { Some(old(self)@[key@]) } else { None::<V> }),
            final(self).capacity() == old(self).capacity(),
            final(self).seeds() == old(self).seeds(),
            final(self).deleted_count <= old(self).deleted_count,
            final(self).len <= old(self).len + 1,
    {
        let ghost pre = *self;
        let h = key.key_hash(&self.hasher);
        let cap = self.table.len();
        let start = (h as usize) % cap;
        assert(start == self.home(key@));
        let mut idx = start;
        let mut t: usize = 0;
        let mut first_deleted: Option<usize> = None;
        let ghost mut fd_t: int = 0;
        loop
            invariant
                *self == pre,
                pre == *old(self),
                pre.wf(),
                cap == pre.table@.len(),
                pre.len + pre.deleted_count + 1 < cap,
                start == pre.home(key@),
                0 <= start < cap,
                0 <= t < cap,
                idx == probe(start as int, t as int, cap as int),
                forall|u: int|
                    0 <= u < t ==> {
                        let b = #[trigger] pre.table@[probe(start as int, u, cap as int)];
                        !(b is Empty) && !(b is Occupied && bkey(b)@ == key@)
                    },
                match first_deleted {
                    Some(d) => {
                        &&& 0 <= fd_t < t
                        &&& d == probe(start as int, fd_t, cap as int)
                        &&& pre.table@[d as int] is Deleted
                    },
                    None => true,
                },
            decreases cap - t,
        {
            let state: u8 = match &self.table[idx] {
                Bucket::Empty => 0,
                Bucket::Deleted => 1,
                Bucket::Occupied(k, _) => if k.key_eq(&key) {
                    2
                } else {
                    3
                },
            };
            if state == 0 {
                proof {
                    pre.lemma_absent_at_empty(key@, start as int, t as int);
                    pre.lemma_view_dom();
                }
                let ghost kv = key@;
                let (pos, pt) = match first_deleted {
                    Some(d) => (d, Ghost(fd_t)),
                    None => (idx, Ghost(t as int)),
                };
                let was_deleted = first_deleted.is_some();
                proof {
                    if was_deleted {
                        lemma_count_deleted_update(pre.table@, pos as int, Bucket::<K, V>::Empty);
                    }
                }
                self.table.set(pos, Bucket::Occupied(key, value));
                if was_deleted {
                    self.deleted_count = self.deleted_count - 1;
                }
                self.len = self.len + 1;
                self.index = Ghost(pre.index@.insert(kv, pos as int));
                proof {
                    Self::lemma_place(&pre, self, kv, pos as int, start as int, pt@);
                    assert forall|k: K::V| #[trigger] pre.index@.contains_key(k) implies pre.index@[k]
                        != pos by {
                        assert(pre.table@[pre.index@[k]] is Occupied);
                    }
                    assert(self@ =~= pre@.insert(kv, value));
                }
                return None;
            } else if state == 1 {
                if first_deleted.is_none() {
                    first_deleted = Some(idx);
                    proof {
                        fd_t = t as int;
                    }
                }
            } else if state == 2 {
                let mut tmp = Bucket::Empty;
                std::mem::swap(&mut tmp, &mut self.table[idx]);
                match tmp {
                    Bucket::Occupied(k, v) => {
                        self.table.set(idx, Bucket::Occupied(k, value));
                        proof {
                            pre.lemma_view_dom();
                            assert(pre.index@[key@] == idx);
                            assert(self.table@ =~= pre.table@.update(idx as int, self.table@[idx as int]));
                            Self::lemma_replace_value(&pre, self, idx as int);
                            assert(self@ =~= pre@.insert(key@, value));
                        }
                        return Some(v);
                    },
                    _ => {
                        proof {
                            assert(false);
                        }
                        return None;
                    },
                }
            }
            proof {
                if t + 1 == cap {
                    pre.lemma_probe_covers(start as int, cap as int);
                    let u = choose|u: int|
                        0 <= u < cap && (#[trigger] pre.table@[probe(start as int, u, cap as int)]) is Empty;
                    if u < t {
                    } else {
                        assert(u == t);
                    }
                }
            }
            idx = if idx + 1 == cap { 0 } else { idx + 1 };
            t = t + 1;
        }
    }

    /// Overwriting the value of an occupied slot, whatever the new value,
    /// keeps the invariant and changes only that entry's value.
    proof fn lemma_replace_value_any(pre: Self, i: int)
        requires
            pre.wf(),
            0 <= i < pre.table@.len(),
            pre.table@[i] is Occupied,
        ensures
            forall|post: Self|
                post.hasher == pre.hasher && post.len == pre.len && post.deleted_count
                    == pre.deleted_count && post.index == pre.index && post.table@
                    == pre.table@.update(i, post.table@[i]) && post.table@[i] is Occupied && bkey(
                    post.table@[i],
                ) == bkey(pre.table@[i]) ==> {
                    &&& #[trigger] post.wf()
                    &&& post@ == pre@.insert(bkey(pre.table@[i])@, bval(post.table@[i]))
                },
    {
        assert forall|post: Self|
            post.hasher == pre.hasher && post.len == pre.len && post.deleted_count
                == pre.deleted_count && post.index == pre.index && post.table@
                == pre.table@.update(i, post.table@[i]) && post.table@[i] is Occupied && bkey(
                post.table@[i],
            ) == bkey(pre.table@[i]) implies {
                &&& #[trigger] post.wf()
                &&& post@ == pre@.insert(bkey(pre.table@[i])@, bval(post.table@[i]))
            } by {
            Self::lemma_replace_value(&pre, &post, i);
            assert(pre.index@[bkey(pre.table@[i])@] == i);
            assert forall|k: K::V| #[trigger] pre.index@.contains_key(k) && k != bkey(pre.table@[i])@
                implies pre.index@[k] != i by {
            }
            assert(post@ =~= pre@.insert(bkey(pre.table@[i])@, bval(post.table@[i])));
        }
    }

    /// Overwriting the value of an occupied slot keeps the invariant.
    proof fn lemma_replace_value(pre: &Self, post: &Self, i: int)
        requires
            pre.wf(),
            post.hasher == pre.hasher,
            post.len == pre.len,
            post.deleted_count == pre.deleted_count,
            post.index == pre.index,
            0 <= i < pre.table@.len(),
            pre.table@[i] is Occupied,
            post.table@ == pre.table@.update(i, post.table@[i]),
            post.table@[i] is Occupied,
            bkey(post.table@[i]) == bkey(pre.table@[i]),
        ensures
            post.wf(),
    {
        let cap = pre.table@.len() as int;
        lemma_count_empty_update(pre.table@, i, post.table@[i]);
        lemma_count_deleted_update(pre.table@, i, post.table@[i]);
        assert forall|j: int| 0 <= j < cap && (#[trigger] post.table@[j]) is Occupied implies {
            &&& post.index@.contains_key(bkey(post.table@[j])@)
            &&& post.index@[bkey(post.table@[j])@] == j
            &&& post.chain_ok(j)
        } by {
            assert(pre.table@[j] is Occupied);
            let h = pre.home(bkey(pre.table@[j])@);
            assert(pre.chain_ok(j));
            assert forall|t: int| 0 <= t < dist(h, j, cap) implies !(#[trigger] post.table@[probe(h, t, cap)] is Empty) by {
                assert(!(pre.table@[probe(h, t, cap)] is Empty));
            }
        }
    }
}

impl<K: MapKey, V> AHashMap<K, V> {
    /// The entries of `pre` whose slots lie before `j`.
    pub closed spec fn prefix_view(pre: Self, j: int) -> Map<K::V, V> {
        Map::new(|kv: K::V| pre.index@.contains_key(kv) && pre.index@[kv] < j, |kv: K::V| pre@[kv])
    }

    /// Moves every entry into a fresh table of `new_cap` empty slots, in slot
    /// order, dropping all tombstones.
    fn resize(&mut self, new_cap: usize)
        requires
            old(self).wf(),
            old(self).len < new_cap <= MAX_SLOTS,
        ensures
            final(self).wf(),
            final(self)@ == old(self)@,
            final(self).capacity() == new_cap,
            final(self).seeds() == old(self).seeds(),
            final(self).deleted_count == 0,
    {
        let ghost pre = *self;
        let mut old_table = Self::empty_table(new_cap);
        std::mem::swap(&mut self.table, &mut old_table);
        self.len = 0;
        self.deleted_count = 0;
        self.index = Ghost(Map::empty());
        proof {
            pre.lemma_view_dom();
            assert(Self::prefix_view(pre, 0) =~= self@);
        }
        let ghost old_seq = old_table@;
        for bucket in it: old_table
            invariant
                pre.wf(),
                old_seq == pre.table@,
                it.seq() == old_seq,
                self.wf(),
                self.table@.len() == new_cap,
                self.deleted_count == 0,
                self.hasher == pre.hasher,
                pre.len < new_cap,
                self@ == Self::prefix_view(pre, it.index() as int),
                forall|kv: K::V| #[trigger]
                    self.index@.contains_key(kv) ==> pre.index@.contains_key(kv) && pre.index@[kv] < it.index(),
        {
            let ghost j = it.index() as int;
            proof {
                self.lemma_view_dom();
            }
            match bucket {
                Bucket::Occupied(k, v) => {
                    proof {
                        assert(pre.table@[j] is Occupied);
                        assert(pre.index@[k@] == j);
                        assert(!self.index@.contains_key(k@));
                        assert(self.index@.dom().insert(k@).subset_of(pre.index@.dom()));
                        vstd::set_lib::lemma_len_subset(self.index@.dom().insert(k@), pre.index@.dom());
                        pre.lemma_view_dom();
                    }
                    self.insert_no_resize(k, v);
                    proof {
                        assert(self@ =~= Self::prefix_view(pre, j + 1));
                        self.lemma_view_dom();
                    }
                },
                _ => {
                    proof {
                        assert forall|kv: K::V| pre.index@.contains_key(kv) implies pre.index@[kv] != j by {
                            assert(pre.table@[pre.index@[kv]] is Occupied);
                        }
                        assert(self@ =~= Self::prefix_view(pre, j + 1));
                    }
                },
            }
        }
        proof {
            pre.lemma_view_dom();
            assert(self@ =~= pre@);
        }
    }

    /// Adds `key -> value`, growing the table first when it has no slots or
    /// would be at least seven tenths full; returns the value `key` had.
    pub fn insert(&mut self, key: K, value: V) -> (r: Option<V>)
        requires
            old(self).wf(),
            old(self)@.len() < MAX_ENTRIES,
        ensures
            final(self).wf(),
            final(self)@ == old(self)@.insert(key@, value),
            r == (if old(self)@.contains_key(key@) { Some(old(self)@[key@]) } else { None::<V> }),
            final(self).seeds() == old(self).seeds(),
    {
        proof {
            self.lemma_view_dom();
        }
        if self.table.len() == 0 || (self.len + self.deleted_count + 1) * 10 >= self.table.len() * 7 {
            let np = next_power_of_two((self.len + 1) * 2);
            let new_cap = if np < 8 {
                8
            } else {
                np
            };
            self.resize(new_cap);
            proof {
                self.lemma_view_dom();
            }
        }
        self.insert_no_resize(key, value)
    }

    /// Removes the entry of `key`, leaving a tombstone; returns its value.
    pub fn remove(&mut self, key: &K) -> (r: Option<V>)
        requires
            old(self).wf(),
        ensures
            final(self).wf(),
            final(self)@ == old(self)@.remove(key@),
            r == (if old(self)@.contains_key(key@) { Some(old(self)@[key@]) } else { None::<V> }),
            final(self).capacity() == old(self).capacity(),
            final(self).seeds() == old(self).seeds(),
    {
        let ghost pre = *self;
        proof {
            pre.lemma_view_dom();
        }
        if self.table.len() == 0 {
            return None;
        }
        match self.find_slot(key) {
            None => None,
            Some(i) => {
                proof {
                    assert(self.index@.dom().contains(key@));
                    assert(self.len > 0);
                    lemma_count_empty_update(pre.table@, i as int, Bucket::<K, V>::Deleted);
                    lemma_count_deleted_update(pre.table@, i as int, Bucket::<K, V>::Deleted);
                }
                let mut tmp = Bucket::Deleted;
                std::mem::swap(&mut tmp, &mut self.table[i]);
                self.len = self.len - 1;
                self.deleted_count = self.deleted_count + 1;
                self.index = Ghost(pre.index@.remove(key@));
                proof {
                    Self::lemma_vacate(&pre, self, i as int);
                    assert(self@ =~= pre@.remove(key@));
                }
                match tmp {
                    Bucket::Occupied(_, v) => Some(v),
                    _ => {
                        proof {
                            assert(false);
                        }
                        None
                    },
                }
            },
        }
    }

    /// Turning an occupied slot into a tombstone keeps the invariant.
    proof fn lemma_vacate(pre: &Self, post: &Self, i: int)
        requires
            pre.wf(),
            post.hasher == pre.hasher,
            0 <= i < pre.table@.len(),
            pre.table@[i] is Occupied,
            post.table@ == pre.table@.update(i, Bucket::Deleted),
            post.len + 1 == pre.len,
            post.deleted_count == pre.deleted_count + 1,
            post.index@ == pre.index@.remove(bkey(pre.table@[i])@),
        ensures
            post.wf(),
    {
        let cap = pre.table@.len() as int;
        let kv = bkey(pre.table@[i])@;
        lemma_count_empty_update(pre.table@, i, Bucket::<K, V>::Deleted);
        lemma_count_deleted_update(pre.table@, i, Bucket::<K, V>::Deleted);
        assert forall|k: K::V| #[trigger] post.index@.contains_key(k) implies {
            &&& 0 <= post.index@[k] < cap
            &&& post.table@[post.index@[k]] is Occupied
            &&& bkey(post.table@[post.index@[k]])@ == k
        } by {
            assert(pre.index@.contains_key(k));
            assert(pre.table@[pre.index@[k]] is Occupied);
            assert(pre.index@[k] != i);
        }
        assert forall|j: int| 0 <= j < cap && (#[trigger] post.table@[j]) is Occupied implies {
            &&& post.index@.contains_key(bkey(post.table@[j])@)
            &&& post.index@[bkey(post.table@[j])@] == j
            &&& post.chain_ok(j)
        } by {
            assert(pre.table@[j] is Occupied);
            assert(j != i);
            let h = pre.home(bkey(pre.table@[j])@);
            assert(pre.chain_ok(j));
            assert(pre.index@[bkey(pre.table@[j])@] == j);
            assert forall|t: int| 0 <= t < dist(h, j, cap) implies !(#[trigger] post.table@[probe(h, t, cap)] is Empty) by {
                assert(!(pre.table@[probe(h, t, cap)] is Empty));
            }
        }
        assert(post.index@.dom() =~= pre.index@.dom().remove(kv));
    }

    /// A mutable reference to the value stored under `key`.
    pub fn get_mut(&mut self, key: &K) -> (r: Option<&mut V>)
        requires
            old(self).wf(),
        ensures
            final(self).wf(),
            final(self).capacity() == old(self).capacity(),
            final(self).seeds() == old(self).seeds(),
            match r {
                Some(v) => {
                    &&& old(self)@.contains_key(key@)
                    &&& *v == old(self)@[key@]
                    &&& final(self)@ == old(self)@.insert(key@, *final(v))
                },
                None => {
                    &&& !old(self)@.contains_key(key@)
                    &&& final(self)@ == old(self)@
                },
            },
    {
        let ghost pre = *self;
        proof {
            pre.lemma_view_dom();
        }
        match self.find_slot(key) {
            None => None,
            Some(i) => {
                let slot = &mut self.table[i];
                match slot {
                    Bucket::Occupied(_, v) => {
                        proof {
                            assert(pre.index@[key@] == i);
                            Self::lemma_replace_value_any(pre, i as int);
                        }
                        Some(v)
                    },
                    _ => {
                        proof {
                            assert(false);
                        }
                        None
                    },
                }
            },
        }
    }
}

impl<K: MapKey, V> AHashMap<K, V> {
    /// The entries in the order of the slots that hold them.
    pub closed spec fn slot_order(&self) -> Seq<(K::V, V)> {
        occupied_entries(self.table@)
    }

    /// The entries, each once, in slot order.
    pub fn iter(&self) -> (r: Vec<(&K, &V)>)
        requires
            self.wf(),
        ensures
            r@.len() == self.slot_order().len(),
            forall|j: int| 0 <= j < r@.len() ==> ((#[trigger] r@[j]).0@, *r@[j].1) == self.slot_order()[j],
            forall|j: int|
                0 <= j < r@.len() ==> self@.contains_key((#[trigger] r@[j]).0@) && self@[r@[j].0@]
                    == *r@[j].1,
            forall|kv: K::V|
                #[trigger] self@.contains_key(kv) ==> exists|j: int| 0 <= j < r@.len() && (#[trigger] r@[j]).0@ == kv,
            forall|j1: int, j2: int|
                0 <= j1 < j2 < r@.len() ==> (#[trigger] r@[j1]).0@ != (#[trigger] r@[j2]).0@,
    {
        let mut r: Vec<(&K, &V)> = Vec::new();
        let ghost mut pos: Seq<int> = Seq::empty();
        let cap = self.table.len();
        let mut i: usize = 0;
        proof {
            self.lemma_view_dom();
        }
        while i < cap
            invariant
                self.wf(),
                cap == self.table@.len(),
                i <= cap,
                r@.len() == pos.len(),
                r@.len() == occupied_entries(self.table@.take(i as int)).len(),
                forall|j: int| 0 <= j < r@.len() ==> ((#[trigger] r@[j]).0@, *r@[j].1) == occupied_entries(
                    self.table@.take(i as int),
                )[j],
                forall|j: int|
                    0 <= j < pos.len() ==> {
                        &&& 0 <= #[trigger] pos[j] < i
                        &&& self.table@[pos[j]] is Occupied
                        &&& *r@[j].0 == bkey(self.table@[pos[j]])
                        &&& *r@[j].1 == bval(self.table@[pos[j]])
                    },
                forall|j1: int, j2: int| 0 <= j1 < j2 < pos.len() ==> #[trigger] pos[j1] < #[trigger] pos[j2],
                forall|s: int|
                    0 <= s < i && (#[trigger] self.table@[s]) is Occupied ==> exists|j: int|
                        0 <= j < pos.len() && #[trigger] pos[j] == s,
            decreases cap - i,
        {
            let ghost old_pos = pos;
            let ghost old_r = r@;
            proof {
                assert(self.table@.take(i + 1).drop_last() =~= self.table@.take(i as int));
                assert(self.table@.take(i + 1).last() == self.table@[i as int]);
            }
            match &self.table[i] {
                Bucket::Occupied(k, v) => {
                    r.push((k, v));
                    proof {
                        pos = pos.push(i as int);
                        assert(pos[pos.len() - 1] == i);
                    }
                },
                _ => {},
            }
            proof {
                assert forall|s: int|
                    0 <= s < i + 1 && (#[trigger] self.table@[s]) is Occupied implies exists|j: int|
                        0 <= j < pos.len() && #[trigger] pos[j] == s by {
                    if s == i {
                        assert(pos[pos.len() - 1] == s);
                    } else {
                        let j = choose|j: int| 0 <= j < old_pos.len() && #[trigger] old_pos[j] == s;
                        assert(pos[j] == s);
                    }
                }
            }
            i = i + 1;
        }
        proof {
            assert(self.table@.take(i as int) =~= self.table@);
            self.lemma_view_dom();
            assert forall|j: int| 0 <= j < r@.len() implies self@.contains_key((#[trigger] r@[j]).0@)
                && self@[r@[j].0@] == *r@[j].1 by {
                assert(self.table@[pos[j]] is Occupied);
            }
            assert forall|kv: K::V| #[trigger] self@.contains_key(kv) implies exists|j: int|
                0 <= j < r@.len() && (#[trigger] r@[j]).0@ == kv by {
                let s = self.index@[kv];
                assert(self.table@[s] is Occupied);
                let j = choose|j: int| 0 <= j < pos.len() && #[trigger] pos[j] == s;
                assert(r@[j].0@ == kv);
            }
            assert forall|j1: int, j2: int| 0 <= j1 < j2 < r@.len() implies (#[trigger] r@[j1]).0@
                != (#[trigger] r@[j2]).0@ by {
                assert(pos[j1] < pos[j2]);
                assert(self.table@[pos[j1]] is Occupied);
                assert(self.table@[pos[j2]] is Occupied);
            }
        }
        r
    }

    /// The keys, each once.
    pub fn keys(&self) -> (r: Vec<&K>)
        requires
            self.wf(),
        ensures
            forall|j: int| 0 <= j < r@.len() ==> self@.contains_key((#[trigger] r@[j])@),
            forall|kv: K::V|
                #[trigger] self@.contains_key(kv) ==> exists|j: int| 0 <= j < r@.len() && (#[trigger] r@[j])@ == kv,
            forall|j1: int, j2: int| 0 <= j1 < j2 < r@.len() ==> (#[trigger] r@[j1])@ != (#[trigger] r@[j2])@,
    {
        let entries = self.iter();
        let mut r: Vec<&K> = Vec::new();
        let mut j: usize = 0;
        while j < entries.len()
            invariant
                j <= entries@.len(),
                r@.len() == j,
                forall|t: int| 0 <= t < j ==> #[trigger] r@[t] == entries@[t].0,
            decreases entries@.len() - j,
        {
            r.push(entries[j].0);
            j = j + 1;
        }
        proof {
            assert forall|kv: K::V| #[trigger] self@.contains_key(kv) implies exists|t: int|
                0 <= t < r@.len() && (#[trigger] r@[t])@ == kv by {
                let t = choose|t: int| 0 <= t < entries@.len() && (#[trigger] entries@[t]).0@ == kv;
                assert(r@[t] == entries@[t].0);
            }
            assert forall|j1: int, j2: int| 0 <= j1 < j2 < r@.len() implies (#[trigger] r@[j1])@
                != (#[trigger] r@[j2])@ by {
                assert(r@[j1] == entries@[j1].0);
                assert(r@[j2] == entries@[j2].0);
            }
            assert forall|t: int| 0 <= t < r@.len() implies self@.contains_key((#[trigger] r@[t])@) by {
                assert(r@[t] == entries@[t].0);
            }
        }
        r
    }

    /// The values, one per entry, in the order of [`AHashMap::iter`].
    pub fn values(&self) -> (r: Vec<&V>)
        requires
            self.wf(),
        ensures
            exists|entries: Seq<(&K, &V)>|
                {
                    &&& entries.len() == r@.len()
                    &&& forall|j: int|
                        0 <= j < entries.len() ==> self@.contains_key((#[trigger] entries[j]).0@)
                            && self@[entries[j].0@] == *entries[j].1 && *r@[j] == *entries[j].1
                    &&& forall|kv: K::V|
                        #[trigger] self@.contains_key(kv) ==> exists|j: int|
                            0 <= j < entries.len() && (#[trigger] entries[j]).0@ == kv
                    &&& forall|j1: int, j2: int|
                        0 <= j1 < j2 < entries.len() ==> (#[trigger] entries[j1]).0@
                            != (#[trigger] entries[j2]).0@
                },
    {
        let entries = self.iter();
        let mut r: Vec<&V> = Vec::new();
        let mut j: usize = 0;
        while j < entries.len()
            invariant
                j <= entries@.len(),
                r@.len() == j,
                forall|t: int| 0 <= t < j ==> #[trigger] r@[t] == entries@[t].1,
            decreases entries@.len() - j,
        {
            r.push(entries[j].1);
            j = j + 1;
        }
        assert(forall|t: int| 0 <= t < entries@.len() ==> *r@[t] == *(#[trigger] entries@[t]).1);
        r
    }
}

/// The map that inserting `entries` in order into `m` gives.
pub open spec fn insert_all<K: View, V>(m: Map<K::V, V>, entries: Seq<(K, V)>) -> Map<K::V, V>
    decreases entries.len(),
{
    if entries.len() == 0 {
        m
    } else {
        insert_all(m, entries.drop_last()).insert(entries.last().0@, entries.last().1)
    }
}

impl<K: MapKey, V> AHashMap<K, V> {
    /// Consumes the map into its entries, each once.
    pub fn into_entries(self) -> (r: Vec<(K, V)>)
        requires
            self.wf(),
        ensures
            forall|j: int|
                0 <= j < r@.len() ==> self@.contains_key((#[trigger] r@[j]).0@) && self@[r@[j].0@]
                    == r@[j].1,
            forall|kv: K::V|
                #[trigger] self@.contains_key(kv) ==> exists|j: int| 0 <= j < r@.len() && (#[trigger] r@[j]).0@ == kv,
            forall|j1: int, j2: int|
                0 <= j1 < j2 < r@.len() ==> (#[trigger] r@[j1]).0@ != (#[trigger] r@[j2]).0@,
    {
        let ghost pre = self;
        proof {
            pre.lemma_view_dom();
        }
        let mut r: Vec<(K, V)> = Vec::new();
        let ghost mut pos: Seq<int> = Seq::empty();
        let table = self.table;
        for b in it: table
            invariant
                pre.wf(),
                it.seq() == pre.table@,
                r@.len() == pos.len(),
                forall|j: int|
                    0 <= j < pos.len() ==> {
                        &&& 0 <= #[trigger] pos[j] < it.index()
                        &&& pre.table@[pos[j]] is Occupied
                        &&& r@[j].0 == bkey(pre.table@[pos[j]])
                        &&& r@[j].1 == bval(pre.table@[pos[j]])
                    },
                forall|j1: int, j2: int| 0 <= j1 < j2 < pos.len() ==> #[trigger] pos[j1] < #[trigger] pos[j2],
                forall|s: int|
                    0 <= s < it.index() && (#[trigger] pre.table@[s]) is Occupied ==> exists|j: int|
                        0 <= j < pos.len() && #[trigger] pos[j] == s,
        {
            let ghost i = it.index() as int;
            let ghost old_pos = pos;
            match b {
                Bucket::Occupied(k, v) => {
                    r.push((k, v));
                    proof {
                        pos = pos.push(i);
                        assert(pos[pos.len() - 1] == i);
                    }
                },
                _ => {},
            }
            proof {
                assert forall|s: int|
                    0 <= s < i + 1 && (#[trigger] pre.table@[s]) is Occupied implies exists|j: int|
                        0 <= j < pos.len() && #[trigger] pos[j] == s by {
                    if s == i {
                        assert(pos[pos.len() - 1] == s);
                    } else {
                        let j = choose|j: int| 0 <= j < old_pos.len() && #[trigger] old_pos[j] == s;
                        assert(pos[j] == s);
                    }
                }
            }
        }
        proof {
            assert forall|j: int| 0 <= j < r@.len() implies pre@.contains_key((#[trigger] r@[j]).0@)
                && pre@[r@[j].0@] == r@[j].1 by {
                assert(pre.table@[pos[j]] is Occupied);
            }
            assert forall|kv: K::V| #[trigger] pre@.contains_key(kv) implies exists|j: int|
                0 <= j < r@.len() && (#[trigger] r@[j]).0@ == kv by {
                let s = pre.index@[kv];
                assert(pre.table@[s] is Occupied);
                let j = choose|j: int| 0 <= j < pos.len() && #[trigger] pos[j] == s;
                assert(r@[j].0@ == kv);
            }
            assert forall|j1: int, j2: int| 0 <= j1 < j2 < r@.len() implies (#[trigger] r@[j1]).0@
                != (#[trigger] r@[j2]).0@ by {
                assert(pos[j1] < pos[j2]);
                assert(pre.table@[pos[j1]] is Occupied);
                assert(pre.table@[pos[j2]] is Occupied);
            }
        }
        r
    }

    /// A map built by inserting `entries` in order.
    pub fn from_entries(entries: Vec<(K, V)>) -> (m: Self)
        requires
            entries@.len() < MAX_ENTRIES,
        ensures
            m.wf(),
            m@ == insert_all(Map::<K::V, V>::empty(), entries@),
    {
        let mut m = Self::new();
        let ghost es = entries@;
        for e in it: entries
            invariant
                it.seq() == es,
                es.len() < MAX_ENTRIES,
                m.wf(),
                m@ == insert_all(Map::<K::V, V>::empty(), es.take(it.index() as int)),
                m@.len() <= it.index(),
        {
            let ghost j = it.index() as int;
            proof {
                assert(es.take(j + 1).drop_last() =~= es.take(j));
            }
            let (k, v) = e;
            let ghost prev = m@;
            proof {
                m.lemma_view_dom();
            }
            m.insert(k, v);
            proof {
                assert(m@.dom() =~= prev.dom().insert(es[j].0@));
            }
        }
        proof {
            assert(es.take(es.len() as int) =~= es);
        }
        m
    }
}

impl<K: MapKey, V> Default for AHashMap<K, V> {
    fn default() -> (m: Self)
        ensures
            m.wf(),
            m@ == Map::<K::V, V>::empty(),
    {
        Self::new()
    }
}

impl<K: MapKey, V> AHashMap<K, V> {
    /// A table with the same slot kinds and keys as a well-formed one, and the
    /// same bookkeeping, is well formed; its view has the same keys.
    proof fn lemma_same_shape(pre: &Self, post: &Self)
        requires
            pre.wf(),
            post.hasher == pre.hasher,
            post.len == pre.len,
            post.deleted_count == pre.deleted_count,
            post.index == pre.index,
            post.table@.len() == pre.table@.len(),
            forall|j: int|
                0 <= j < pre.table@.len() ==> {
                    &&& (pre.table@[j] is Empty <==> post.table@[j] is Empty)
                    &&& (pre.table@[j] is Deleted <==> post.table@[j] is Deleted)
                    &&& (pre.table@[j] is Occupied ==> bkey(post.table@[j]) == bkey(pre.table@[j]))
                },
        ensures
            post.wf(),
            post@.dom() == pre@.dom(),
    {
        let cap = pre.table@.len() as int;
        lemma_count_same_shape(pre.table@, post.table@);
        assert forall|k: K::V| #[trigger] post.index@.contains_key(k) implies {
            &&& 0 <= post.index@[k] < cap
            &&& post.table@[post.index@[k]] is Occupied
            &&& bkey(post.table@[post.index@[k]])@ == k
        } by {
            assert(pre.table@[pre.index@[k]] is Occupied);
        }
        assert forall|j: int| 0 <= j < cap && (#[trigger] post.table@[j]) is Occupied implies {
            &&& post.index@.contains_key(bkey(post.table@[j])@)
            &&& post.index@[bkey(post.table@[j])@] == j
            &&& post.chain_ok(j)
        } by {
            assert(pre.table@[j] is Occupied);
            let h = pre.home(bkey(pre.table@[j])@);
            assert(pre.chain_ok(j));
            assert forall|t: int| 0 <= t < dist(h, j, cap) implies !(#[trigger] post.table@[probe(h, t, cap)] is Empty) by {
                assert(!(pre.table@[probe(h, t, cap)] is Empty));
            }
        }
        assert(post@.dom() =~= pre@.dom());
    }

    /// Replaces every value `v` stored under key `k` by `f(k, v)`.
    pub fn update_values<F>(&mut self, f: F)
        where
            F: Fn(&K, V) -> V,
        requires
            old(self).wf(),
            forall|k: &K, v: V| f.requires((k, v)),
        ensures
            final(self).wf(),
            final(self)@.dom() == old(self)@.dom(),
            forall|kv: K::V|
                #[trigger] old(self)@.contains_key(kv) ==> exists|k: K|
                    k@ == kv && f.ensures((&k, old(self)@[kv]), #[trigger] final(self)@[kv]),
            final(self).capacity() == old(self).capacity(),
            final(self).seeds() == old(self).seeds(),
    {
        let ghost pre = *self;
        let cap = self.table.len();
        let mut i: usize = 0;
        while i < cap
            invariant
                pre.wf(),
                cap == pre.table@.len(),
                cap == self.table@.len(),
                i <= cap,
                self.hasher == pre.hasher,
                self.len == pre.len,
                self.deleted_count == pre.deleted_count,
                self.index == pre.index,
                forall|k: &K, v: V| f.requires((k, v)),
                forall|j: int|
                    0 <= j < cap ==> {
                        &&& (pre.table@[j] is Empty <==> (#[trigger] self.table@[j]) is Empty)
                        &&& (pre.table@[j] is Deleted <==> self.table@[j] is Deleted)
                        &&& (pre.table@[j] is Occupied ==> bkey(self.table@[j]) == bkey(pre.table@[j]))
                    },
                forall|j: int| i <= j < cap ==> #[trigger] self.table@[j] == pre.table@[j],
                forall|j: int|
                    0 <= j < i && (#[trigger] pre.table@[j]) is Occupied ==> f.ensures(
                        (&bkey(pre.table@[j]), bval(pre.table@[j])),
                        bval(self.table@[j]),
                    ),
            decreases cap - i,
        {
            let occupied = match &self.table[i] {
                Bucket::Occupied(_, _) => true,
                _ => false,
            };
            if occupied {
                let mut tmp = Bucket::Empty;
                std::mem::swap(&mut tmp, &mut self.table[i]);
                match tmp {
                    Bucket::Occupied(k, v) => {
                        let nv = f(&k, v);
                        self.table.set(i, Bucket::Occupied(k, nv));
                    },
                    _ => {},
                }
            }
            i = i + 1;
        }
        proof {
            Self::lemma_same_shape(&pre, self);
            pre.lemma_view_dom();
            assert forall|kv: K::V| #[trigger] pre@.contains_key(kv) implies exists|k: K|
                k@ == kv && f.ensures((&k, pre@[kv]), #[trigger] self@[kv]) by {
                let s = pre.index@[kv];
                assert(pre.table@[s] is Occupied);
                let k = bkey(pre.table@[s]);
                assert(k@ == kv);
                assert(f.ensures((&k, pre@[kv]), self@[kv]));
            }
        }
    }
}

/// One write to a map, by keys' and values' views: an insert, which
/// replaces any value already under the key, a remove, or a clear.
pub enum MapWrite<KV, V> {
    Insert(KV, V),
    Remove(KV),
    Clear,
}

/// The map after one write.
pub open spec fn after_write<KV, V>(m: Map<KV, V>, w: MapWrite<KV, V>) -> Map<KV, V> {
    match w {
        MapWrite::Insert(k, v) => m.insert(k, v),
        MapWrite::Remove(k) => m.remove(k),
        MapWrite::Clear => Map::empty(),
    }
}

/// The map after a run of writes, applied in order.
pub open spec fn after_writes<KV, V>(m: Map<KV, V>, ws: Seq<MapWrite<KV, V>>) -> Map<KV, V>
    decreases ws.len(),
{
    if ws.len() == 0 {
        m
    } else {
        after_write(after_writes(m, ws.drop_last()), ws.last())
    }
}

/// A map driven through any run of writes holds what applying them in
/// order to its starting contents gives: when each state's view is the
/// one before it after one write (as `insert`, `remove` and `clear`
/// ensure), the last view is the whole run applied to the first, and so is
/// every lookup and the length.
pub proof fn lemma_writes_in_order<KV, V>(views: Seq<Map<KV, V>>, ws: Seq<MapWrite<KV, V>>)
    requires
        views.len() == ws.len() + 1,
        forall|i: int| 0 <= i < ws.len() ==> views[i + 1] == after_write(views[i], #[trigger] ws[i]),
    ensures
        views.last() == after_writes(views[0], ws),
        forall|k: KV| #[trigger] views.last().contains_key(k) <==> after_writes(views[0], ws).contains_key(k),
        views.last().len() == after_writes(views[0], ws).len(),
    decreases ws.len(),
{
    if ws.len() > 0 {
        let n = ws.len() - 1;
        lemma_writes_in_order(views.drop_last(), ws.drop_last());
        assert(views.drop_last().last() == views[n]);
        assert(views[n + 1] == after_write(views[n], ws[n]));
    }
}

} // verus!
