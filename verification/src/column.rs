//! Columnar storage: a column's rows with a packed validity bitvector, the
//! snapshot cell that publishes a column, and the per-partition column sets.

use vstd::prelude::*;
use crate::map::AHashMap;
use crate::qsbr::WorkerState;
use crate::rcu::{RcuCell, load_clone, load_ref, new_atomic_ptr};

verus! {

/// Whether bit `b` of `w` is set.
pub open spec fn word_bit(w: u64, b: u64) -> bool {
    w & (1u64 << b) != 0
}

pub(crate) proof fn lemma_set_bit(w: u64, b: u64, c: u64)
    requires
        b < 64,
        c < 64,
    ensures
        word_bit(w | (1u64 << b), c) == (c == b || word_bit(w, c)),
        word_bit(w & !(1u64 << b), c) == (c != b && word_bit(w, c)),
{
    assert(((w | (1u64 << b)) & (1u64 << c) != 0) == (c == b || (w & (1u64 << c)) != 0))
        by (bit_vector)
        requires
            b < 64,
            c < 64,
    ;
    assert(((w & !(1u64 << b)) & (1u64 << c) != 0) == (c != b && (w & (1u64 << c)) != 0))
        by (bit_vector)
        requires
            b < 64,
            c < 64,
    ;
}

pub(crate) proof fn lemma_zero_word(c: u64)
    requires
        c < 64,
    ensures
        !word_bit(0u64, c),
{
    assert(0u64 & (1u64 << c) == 0) by (bit_vector);
}

/// The rows of one column: values stored contiguously in `data`, and in
/// `valid` one bit per row (bit `i % 64` of word `i / 64`) telling whether
/// the row holds a value.
pub struct ColumnData<T> {
    pub data: Vec<T>,
    pub valid: Vec<u64>,
}

/// Whether row `idx` is marked valid in the bitvector `valid`.
pub open spec fn valid_bit(valid: Seq<u64>, idx: int) -> bool {
    &&& 0 <= idx
    &&& idx / 64 < valid.len()
    &&& word_bit(valid[idx / 64], (idx % 64) as u64)
}

impl<T> ColumnData<T> {
    /// Whether row `idx` is marked valid.
    pub open spec fn valid_at(&self, idx: int) -> bool {
        valid_bit(self.valid@, idx)
    }

    /// The row `idx` as a reader sees it: its value when it is valid and
    /// stored, else nothing.
    pub open spec fn row(&self, idx: int) -> Option<T> {
        if self.valid_at(idx) && 0 <= idx < self.data@.len() {
            Some(self.data@[idx])
        } else {
            None
        }
    }

    /// All rows as a reader sees them.
    pub open spec fn rows(&self) -> Seq<Option<T>> {
        Seq::new(self.data@.len(), |i: int| self.row(i))
    }
}

impl<T: Default + Clone> ColumnData<T> {
    /// A column with no rows.
    pub fn new() -> (c: Self)
        ensures
            c.data@.len() == 0,
            c.valid@.len() == 0,
            forall|i: int| !c.valid_at(i),
    {
        Self { data: Vec::new(), valid: Vec::new() }
    }

    /// Whether row `idx` is marked valid; rows past the bitvector are not.
    pub fn is_valid(&self, idx: usize) -> (b: bool)
        ensures
            b == self.valid_at(idx as int),
    {
        let block = idx / 64;
        let bit = idx % 64;
        if block < self.valid.len() {
            (self.valid[block] & (1u64 << (bit as u64))) != 0
        } else {
            false
        }
    }

    /// Sets or clears the validity bit of row `idx`, growing the bitvector
    /// with zero words when it is too short. The rows themselves are kept.
    pub fn set_valid(&mut self, idx: usize, valid: bool)
        ensures
            final(self).data@ == old(self).data@,
            forall|j: int| 0 <= j ==> #[trigger] final(self).valid_at(j) == (if j == idx {
                valid
            } else {
                old(self).valid_at(j)
            }),
            final(self).valid@.len() == if idx / 64 < old(self).valid@.len() {
                old(self).valid@.len() as int
            } else {
                idx / 64 + 1
            },
    {
        let block = idx / 64;
        let bit = idx % 64;
        let ghost pre = self.valid@;
        if block >= self.valid.len() {
            while self.valid.len() < block + 1
                invariant
                    self.data@ == old(self).data@,
                    self.valid@.len() <= block + 1,
                    block == idx / 64,
                    self.valid@.len() >= pre.len(),
                    forall|w: int| 0 <= w < pre.len() ==> #[trigger] self.valid@[w] == pre[w],
                    forall|w: int| pre.len() <= w < self.valid@.len() ==> #[trigger] self.valid@[w] == 0,
                decreases block + 1 - self.valid@.len(),
            {
                self.valid.push(0);
            }
        }
        let ghost mid = self.valid@;
        let w = self.valid[block];
        if valid {
            self.valid.set(block, w | (1u64 << (bit as u64)));
        } else {
            self.valid.set(block, w & !(1u64 << (bit as u64)));
        }
        proof {
            assert forall|j: int| 0 <= j implies #[trigger] self.valid_at(j) == (if j == idx {
                valid
            } else {
                old(self).valid_at(j)
            }) by {
                let jb = j / 64;
                let jc = (j % 64) as u64;
                if jb == block {
                    lemma_set_bit(w, bit as u64, jc);
                    if jb >= pre.len() {
                        lemma_zero_word(jc);
                    }
                } else if jb < self.valid@.len() {
                    assert(self.valid@[jb] == mid[jb]);
                    if jb >= pre.len() {
                        lemma_zero_word(jc);
                    }
                }
            }
        }
    }

    /// The value of row `idx` when the row is valid and stored.
    pub fn get(&self, idx: usize) -> (r: Option<&T>)
        ensures
            r == match self.row(idx as int) {
                Some(v) => Some(&self.data@[idx as int]),
                None => None::<&T>,
            },
            r matches Some(v) ==> self.row(idx as int) == Some(*v),
    {
        if self.is_valid(idx) {
            if idx < self.data.len() {
                Some(&self.data[idx])
            } else {
                None
            }
        } else {
            None
        }
    }

    /// Number of stored rows, valid or not.
    pub fn len(&self) -> (n: usize)
        ensures
            n == self.data@.len(),
    {
        self.data.len()
    }

    /// Whether no row is stored.
    pub fn is_empty(&self) -> (b: bool)
        ensures
            b == (self.data@.len() == 0),
    {
        self.data.len() == 0
    }

    /// Appends `val` as a new valid row.
    pub fn push(&mut self, val: T)
        requires
            old(self).data@.len() < usize::MAX,
        ensures
            final(self).data@ == old(self).data@.push(val),
            forall|j: int| 0 <= j ==> #[trigger] final(self).valid_at(j) == (if j == old(self).data@.len() {
                true
            } else {
                old(self).valid_at(j)
            }),
    {
        let idx = self.data.len();
        self.data.push(val);
        self.set_valid(idx, true);
    }

    /// Writes `val` to row `idx` and marks it valid; when `idx` is past the
    /// end the rows in between are filled with `T::default()` and stay
    /// invalid.
    pub fn set(&mut self, idx: usize, val: T)
        requires
            idx < usize::MAX,
        ensures
            final(self).data@.len() == if idx < old(self).data@.len() {
                old(self).data@.len() as int
            } else {
                idx + 1
            },
            final(self).data@[idx as int] == val,
            forall|j: int|
                0 <= j < old(self).data@.len() && j != idx ==> #[trigger] final(self).data@[j]
                    == old(self).data@[j],
            forall|j: int| 0 <= j ==> #[trigger] final(self).valid_at(j) == (if j == idx {
                true
            } else {
                old(self).valid_at(j)
            }),
    {
        if idx >= self.data.len() {
            let ghost pre = self.data@;
            self.data.resize(idx + 1, T::default());
            proof {
                assert forall|j: int| 0 <= j < pre.len() implies #[trigger] self.data@[j] == pre[j] by {
                    assert(self.data@.subrange(0, pre.len() as int)[j] == pre[j]);
                }
            }
        }
        self.data.set(idx, val);
        self.set_valid(idx, true);
    }

    /// Every row as a reader sees it, in order: `Some` for a valid row, `None`
    /// for an invalid one.
    pub fn iter(&self) -> (r: Vec<Option<&T>>)
        ensures
            r@.len() == self.data@.len(),
            forall|i: int|
                0 <= i < r@.len() ==> (#[trigger] r@[i]) == match self.row(i) {
                    Some(v) => Some(&self.data@[i]),
                    None => None::<&T>,
                },
    {
        let mut r: Vec<Option<&T>> = Vec::new();
        let mut i: usize = 0;
        while i < self.data.len()
            invariant
                i <= self.data@.len(),
                r@.len() == i,
                forall|t: int|
                    0 <= t < i ==> (#[trigger] r@[t]) == match self.row(t) {
                        Some(v) => Some(&self.data@[t]),
                        None => None::<&T>,
                    },
            decreases self.data@.len() - i,
        {
            r.push(self.get(i));
            i = i + 1;
        }
        r
    }
}

impl<T: Default + Clone> Default for ColumnData<T> {
    fn default() -> (c: Self)
        ensures
            c.data@.len() == 0,
            c.valid@.len() == 0,
    {
        Self::new()
    }
}

impl<T: Clone> Clone for ColumnData<T> {
    fn clone(&self) -> (c: Self)
        ensures
            c.valid@ == self.valid@,
            c.data@.len() == self.data@.len(),
            forall|i: int| 0 <= i < self.data@.len() ==> cloned::<T>(self.data@[i], #[trigger] c.data@[i]),
    {
        let valid = self.valid.clone();
        proof {
            assert(valid@ =~= self.valid@);
        }
        ColumnData { data: self.data.clone(), valid }
    }
}

/// The columnar store of one attribute: the published [`ColumnData`]
/// snapshot, the published list of rows awaiting deferred work, and the flag
/// that admits one writer at a time.
pub struct ColumnArray<T, const N: usize> {
    pub data: RcuCell<ColumnData<T>>,
    pub waitlist: RcuCell<Vec<usize>>,
    pub write_guard: bool,
}

impl<T: Default + Clone, const N: usize> ColumnArray<T, N> {
    /// A column with no rows, an empty waitlist and no writer.
    pub fn new() -> (c: Self)
        ensures
            c.data@.data@.len() == 0,
            c.data@.valid@.len() == 0,
            c.waitlist@@.len() == 0,
            !c.write_guard,
    {
        ColumnArray {
            data: new_atomic_ptr(ColumnData::new()),
            waitlist: new_atomic_ptr(Vec::new()),
            write_guard: false,
        }
    }

    /// Admits the caller as the column's only writer. A second writer while
    /// the first holds the column is a data race, which the caller must rule
    /// out.
    pub fn acquire_lock(&mut self)
        requires
            !old(self).write_guard,
        ensures
            final(self).write_guard,
            final(self).data@ == old(self).data@,
            final(self).waitlist@ == old(self).waitlist@,
    {
        self.write_guard = true;
    }

    /// Releases the writer's hold.
    pub fn release_lock(&mut self)
        ensures
            !final(self).write_guard,
            final(self).data@ == old(self).data@,
            final(self).waitlist@ == old(self).waitlist@,
    {
        self.write_guard = false;
    }

    /// A clone of row `idx` of the published snapshot, read on behalf of
    /// `worker`.
    pub fn get_element(&self, idx: usize, worker: &WorkerState) -> (r: Option<T>)
        ensures
            r is Some <==> self.data@.row(idx as int) is Some,
            r matches Some(v) ==> cloned::<T>(self.data@.row(idx as int)->0, v),
    {
        self.get_element_pinned(idx)
    }

    /// A clone of row `idx` of the published snapshot; the caller is already
    /// inside a read-side critical section.
    pub fn get_element_pinned(&self, idx: usize) -> (r: Option<T>)
        ensures
            r is Some <==> self.data@.row(idx as int) is Some,
            r matches Some(v) ==> cloned::<T>(self.data@.row(idx as int)->0, v),
    {
        let data = load_ref(&self.data);
        match data.get(idx) {
            Some(v) => Some(v.clone()),
            None => None,
        }
    }

    /// Applies `f` to row `idx` of the published snapshot, read on behalf of
    /// `worker`.
    pub fn with_element<F, R>(&self, idx: usize, worker: &WorkerState, f: F) -> (r: Option<R>)
        where
            F: FnOnce(&T) -> R,
        requires
            forall|v: &T| f.requires((v,)),
        ensures
            r is Some <==> self.data@.row(idx as int) is Some,
            r matches Some(x) ==> f.ensures((&self.data@.data@[idx as int],), x),
    {
        self.with_element_pinned(idx, f)
    }

    /// Applies `f` to row `idx` of the published snapshot; the caller is
    /// already inside a read-side critical section.
    pub fn with_element_pinned<F, R>(&self, idx: usize, f: F) -> (r: Option<R>)
        where
            F: FnOnce(&T) -> R,
        requires
            forall|v: &T| f.requires((v,)),
        ensures
            r is Some <==> self.data@.row(idx as int) is Some,
            r matches Some(x) ==> f.ensures((&self.data@.data@[idx as int],), x),
    {
        let data = load_ref(&self.data);
        match data.get(idx) {
            Some(v) => Some(f(v)),
            None => None,
        }
    }

    /// A clone of the published snapshot.
    pub fn get_data_snapshot(&self, worker: &WorkerState) -> (c: ColumnData<T>)
        ensures
            c.valid@ == self.data@.valid@,
            c.data@.len() == self.data@.data@.len(),
            forall|i: int|
                0 <= i < c.data@.len() ==> cloned::<T>(self.data@.data@[i], #[trigger] c.data@[i]),
    {
        load_clone(&self.data)
    }

    /// A copy of the published waitlist.
    pub fn get_waitlist_snapshot(&self, worker: &WorkerState) -> (w: Vec<usize>)
        ensures
            w@ == self.waitlist@@,
    {
        let w = load_clone(&self.waitlist);
        proof {
            assert(w@ =~= self.waitlist@@);
        }
        w
    }

    /// Number of rows of the published snapshot.
    pub fn data_len(&self, worker: &WorkerState) -> (n: usize)
        ensures
            n == self.data@.data@.len(),
    {
        load_ref(&self.data).len()
    }

    /// Applies `f` to the published snapshot, read on behalf of `worker`.
    pub fn with_data<F, R>(&self, worker: &WorkerState, f: F) -> (r: R)
        where
            F: FnOnce(&ColumnData<T>) -> R,
        requires
            f.requires((&self.data@,)),
        ensures
            f.ensures((&self.data@,), r),
    {
        self.with_data_pinned(f)
    }

    /// Applies `f` to the published snapshot; the caller is already inside a
    /// read-side critical section.
    pub fn with_data_pinned<F, R>(&self, f: F) -> (r: R)
        where
            F: FnOnce(&ColumnData<T>) -> R,
        requires
            f.requires((&self.data@,)),
        ensures
            f.ensures((&self.data@,), r),
    {
        let data = load_ref(&self.data);
        f(data)
    }
}

impl<T: Default + Clone, const N: usize> Default for ColumnArray<T, N> {
    fn default() -> (c: Self)
        ensures
            c.data@.data@.len() == 0,
            c.data@.valid@.len() == 0,
            c.waitlist@@.len() == 0,
            !c.write_guard,
    {
        Self::new()
    }
}

/// The named columns of one partition, by value type.
pub struct Columns<const N: usize> {
    pub str_cols: AHashMap<String, ColumnArray<String, N>>,
    pub int_cols: AHashMap<String, ColumnArray<u32, N>>,
    pub blob_cols: AHashMap<String, ColumnArray<Vec<u8>, N>>,
}

impl<const N: usize> Columns<N> {
    /// Whether the three column maps are well formed.
    pub open spec fn wf(&self) -> bool {
        &&& self.str_cols.wf()
        &&& self.int_cols.wf()
        &&& self.blob_cols.wf()
    }

    /// No column of any type.
    pub fn new() -> (c: Self)
        ensures
            c.wf(),
            c.str_cols@ == Map::<Seq<char>, ColumnArray<String, N>>::empty(),
            c.int_cols@ == Map::<Seq<char>, ColumnArray<u32, N>>::empty(),
            c.blob_cols@ == Map::<Seq<char>, ColumnArray<Vec<u8>, N>>::empty(),
    {
        Columns {
            str_cols: AHashMap::new(),
            int_cols: AHashMap::new(),
            blob_cols: AHashMap::new(),
        }
    }
}

impl<const N: usize> Default for Columns<N> {
    fn default() -> (c: Self)
        ensures
            c.wf(),
            c.str_cols@ == Map::<Seq<char>, ColumnArray<String, N>>::empty(),
            c.int_cols@ == Map::<Seq<char>, ColumnArray<u32, N>>::empty(),
            c.blob_cols@ == Map::<Seq<char>, ColumnArray<Vec<u8>, N>>::empty(),
    {
        Self::new()
    }
}

/// One entity's row pointer: its id and, per attribute, the row index in the
/// attribute's column.
pub struct MultiVectorPointer {
    pub entity_id: usize,
    pub attribute_indices: AHashMap<String, usize>,
}

impl MultiVectorPointer {
    /// The pointer of `entity_id` with no attribute.
    pub fn new(entity_id: usize) -> (p: Self)
        ensures
            p.entity_id == entity_id,
            p.attribute_indices.wf(),
            p.attribute_indices@ == Map::<Seq<char>, usize>::empty(),
    {
        MultiVectorPointer { entity_id, attribute_indices: AHashMap::new() }
    }
}

impl Default for MultiVectorPointer {
    fn default() -> (p: Self)
        ensures
            p.entity_id == 0,
            p.attribute_indices.wf(),
            p.attribute_indices@ == Map::<Seq<char>, usize>::empty(),
    {
        Self::new(0)
    }
}

} // verus!
