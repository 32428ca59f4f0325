//! The query engine: query plans, their results, and their execution over
//! one snapshot of a partition's pointers and columns.

use vstd::prelude::*;
use crate::bloom::{probes_in, SimpleBloom};
use crate::column::{ColumnData, Columns, MultiVectorPointer};
use crate::map::AHashMap;
use crate::rcu::load_ref;

verus! {

/// One step of a query plan.
#[derive(Debug, Clone)]
pub enum QueryNode<'a> {
    /// The value of one attribute of one entity, whatever its type.
    Get { entity_id: usize, attr: &'a str },
    /// Follows the integer attribute `link_attr` of one entity to the entity
    /// it names, and reads `target_attr` there.
    Link { from_entity_id: usize, link_attr: &'a str, target_attr: &'a str },
    /// Up to `len` integer values of a column, from the row of an entity.
    Range { entity_id: usize, attr: &'a str, len: usize },
    /// Every value of a column.
    Scan { attr: &'a str },
    /// An aggregate of an integer column.
    Aggregate { attr: &'a str, op: AggregateOp },
}

/// The aggregates of an integer column.
#[derive(Debug, Clone, Copy, PartialEq, Eq, Structural)]
pub enum AggregateOp {
    Sum,
    Avg,
    Min,
    Max,
    Count,
}

/// A query plan: its steps, run in order.
#[derive(Debug, Clone)]
pub struct CdDbQuery<'a> {
    pub nodes: Vec<QueryNode<'a>>,
}

/// What one step of a query gives.
#[derive(Debug, Clone)]
pub enum QueryResult {
    Str(String),
    Int(u32),
    Blob(Vec<u8>),
    IntRange(Vec<u32>),
    IntSum(u64),
    /// The sum and the number of the values averaged; their quotient is
    /// the average.
    IntAvg { sum: u64, count: usize },
    IntMin(u32),
    IntMax(u32),
    Count(usize),
    IntList(Vec<u32>),
    StrList(Vec<String>),
    BlobList(Vec<Vec<u8>>),
    NoResult,
}

/// What a query result says, by value.
pub enum ResultView {
    Str(Seq<char>),
    Int(u32),
    Blob(Seq<u8>),
    IntRange(Seq<u32>),
    IntSum(u64),
    IntAvg { sum: u64, count: usize },
    IntMin(u32),
    IntMax(u32),
    Count(usize),
    IntList(Seq<u32>),
    StrList(Seq<Seq<char>>),
    BlobList(Seq<Seq<u8>>),
    NoResult,
}

impl QueryResult {
    /// The result by value.
    pub open spec fn view(&self) -> ResultView {
        match self {
            QueryResult::Str(s) => ResultView::Str(s@),
            QueryResult::Int(v) => ResultView::Int(*v),
            QueryResult::Blob(b) => ResultView::Blob(b@),
            QueryResult::IntRange(v) => ResultView::IntRange(v@),
            QueryResult::IntSum(v) => ResultView::IntSum(*v),
            QueryResult::IntAvg { sum, count } => ResultView::IntAvg { sum: *sum, count: *count },
            QueryResult::IntMin(v) => ResultView::IntMin(*v),
            QueryResult::IntMax(v) => ResultView::IntMax(*v),
            QueryResult::Count(n) => ResultView::Count(*n),
            QueryResult::IntList(v) => ResultView::IntList(v@),
            QueryResult::StrList(v) => ResultView::StrList(v@.map_values(|s: String| s@)),
            QueryResult::BlobList(v) => ResultView::BlobList(v@.map_values(|b: Vec<u8>| b@)),
            QueryResult::NoResult => ResultView::NoResult,
        }
    }
}

/// What running one step gives, by value.
pub enum OutcomeView {
    Done(ResultView),
    Load(usize),
}

impl NodeOutcome {
    pub open spec fn view(&self) -> OutcomeView {
        match self {
            NodeOutcome::Done(r) => OutcomeView::Done(r.view()),
            NodeOutcome::Load(x) => OutcomeView::Load(*x),
        }
    }
}

/// The sum of `s` as 64-bit wrapping arithmetic gives it.
pub open spec fn wrapped_sum(s: Seq<u32>) -> u64 {
    (seq_sum(s) % 0x1_0000_0000_0000_0000) as u64
}

/// The aggregate `op` of the values `vals`.
pub open spec fn aggregate_view(op: AggregateOp, vals: Seq<u32>) -> ResultView {
    match op {
        AggregateOp::Sum => ResultView::IntSum(wrapped_sum(vals)),
        AggregateOp::Count => ResultView::Count(vals.len() as usize),
        AggregateOp::Min => ResultView::IntMin(seq_min(vals)),
        AggregateOp::Max => ResultView::IntMax(seq_max(vals)),
        AggregateOp::Avg => if vals.len() > 0 {
            ResultView::IntAvg { sum: wrapped_sum(vals), count: vals.len() as usize }
        } else {
            ResultView::NoResult
        },
    }
}

/// Adds `v` to a 64-bit wrapping sum.
proof fn lemma_wrapped_step(s: Seq<u32>, acc: u64, v: u32)
    requires
        acc == wrapped_sum(s),
    ensures
        vstd::wrapping::u64_specs::wrapping_add(acc, v as u64) == wrapped_sum(s.push(v)),
{
    let m: int = 0x1_0000_0000_0000_0000;
    assert(s.push(v).drop_last() =~= s);
    assert(seq_sum(s.push(v)) == seq_sum(s) + v);
    vstd::arithmetic::div_mod::lemma_add_mod_noop(seq_sum(s), v as int, m);
    vstd::arithmetic::div_mod::lemma_small_mod(v as nat, m as nat);
    let t = acc as int + v as int;
    if t >= m {
        vstd::arithmetic::div_mod::lemma_sub_mod_noop_right(t, m, m);
        assert((t - m) % m == t - m) by {
            vstd::arithmetic::div_mod::lemma_small_mod((t - m) as nat, m as nat);
        }
        assert(t % m == t - m) by {
            vstd::arithmetic::div_mod::lemma_mod_sub_multiples_vanish(t, m);
        }
    } else {
        vstd::arithmetic::div_mod::lemma_small_mod(t as nat, m as nat);
    }
}

/// The aggregate `op` of `vals`.
fn aggregate(op: &AggregateOp, vals: &Vec<u32>) -> (r: QueryResult)
    ensures
        r.view() == aggregate_view(*op, vals@),
{
    let n = vals.len();
    let mut sum: u64 = 0;
    let mut min: u32 = 0;
    let mut max: u32 = 0;
    let mut i: usize = 0;
    proof {
        assert(vals@.subrange(0, 0) =~= Seq::<u32>::empty());
    }
    while i < n
        invariant
            n == vals@.len(),
            i <= n,
            sum == wrapped_sum(vals@.subrange(0, i as int)),
            min == seq_min(vals@.subrange(0, i as int)),
            max == seq_max(vals@.subrange(0, i as int)),
        decreases n - i,
    {
        let v = vals[i];
        let ghost pre = vals@.subrange(0, i as int);
        proof {
            assert(vals@.subrange(0, i + 1) =~= pre.push(v));
            lemma_wrapped_step(pre, sum, v);
            assert(pre.push(v).drop_last() =~= pre);
        }
        sum = sum.wrapping_add(v as u64);
        if i == 0 || v < min {
            min = v;
        }
        if i == 0 || v > max {
            max = v;
        }
        i = i + 1;
    }
    proof {
        assert(vals@.subrange(0, n as int) =~= vals@);
    }
    match op {
        AggregateOp::Sum => QueryResult::IntSum(sum),
        AggregateOp::Count => QueryResult::Count(n),
        AggregateOp::Min => QueryResult::IntMin(min),
        AggregateOp::Max => QueryResult::IntMax(max),
        AggregateOp::Avg => if n > 0 {
            QueryResult::IntAvg { sum, count: n }
        } else {
            QueryResult::NoResult
        },
    }
}

/// The outcome of looking something up in a snapshot: found, absent, or
/// only on disk, where the entity must be loaded before the lookup can
/// give an answer.
pub enum Lookup<T> {
    Found(T),
    Absent,
    Load(usize),
}

/// What running one step gives: its result, or the entity that must be
/// loaded from disk before the step can run.
pub enum NodeOutcome {
    Done(QueryResult),
    Load(usize),
}

/// A growable arena that keeps every vector handed to it.
pub struct Bump<T> {
    chunks: Vec<Vec<T>>,
}

impl<T> Bump<T> {
    /// The vectors handed to the arena, in order.
    pub closed spec fn chunks(&self) -> Seq<Vec<T>> {
        self.chunks@
    }

    /// An empty arena.
    pub fn new() -> (b: Self)
        ensures
            b.chunks() == Seq::<Vec<T>>::empty(),
    {
        Bump { chunks: Vec::new() }
    }

    /// Keeps `data` and gives access to it for as long as the arena is
    /// borrowed.
    pub fn allocate(&mut self, data: Vec<T>) -> (r: &[T])
        ensures
            final(self).chunks() == old(self).chunks().push(data),
            r@ == data@,
    {
        self.chunks.push(data);
        let n = self.chunks.len() - 1;
        self.chunks[n].as_slice()
    }
}

impl<T> Default for Bump<T> {
    fn default() -> (b: Self)
        ensures
            b.chunks() == Seq::<Vec<T>>::empty(),
    {
        Bump::new()
    }
}

/// The values of the rows that hold one, in row order.
pub open spec fn present<T>(rows: Seq<Option<T>>) -> Seq<T>
    decreases rows.len(),
{
    if rows.len() == 0 {
        Seq::empty()
    } else {
        let p = present(rows.drop_last());
        match rows.last() {
            Some(v) => p.push(v),
            None => p,
        }
    }
}

/// The sum of `s`.
pub open spec fn seq_sum(s: Seq<u32>) -> int
    decreases s.len(),
{
    if s.len() == 0 {
        0
    } else {
        seq_sum(s.drop_last()) + s.last()
    }
}

/// The least element of `s`, or `0` for an empty sequence.
pub open spec fn seq_min(s: Seq<u32>) -> u32
    decreases s.len(),
{
    if s.len() == 0 {
        0
    } else if s.len() == 1 {
        s[0]
    } else {
        let m = seq_min(s.drop_last());
        if s.last() < m {
            s.last()
        } else {
            m
        }
    }
}

/// The greatest element of `s`, or `0` for an empty sequence.
pub open spec fn seq_max(s: Seq<u32>) -> u32
    decreases s.len(),
{
    if s.len() == 0 {
        0
    } else if s.len() == 1 {
        s[0]
    } else {
        let m = seq_max(s.drop_last());
        if s.last() > m {
            s.last()
        } else {
            m
        }
    }
}

/// The greatest element is one of the elements and no element exceeds it;
/// the least is one of them and none is below it.
proof fn lemma_seq_extremes(s: Seq<u32>)
    requires
        s.len() > 0,
    ensures
        s.contains(seq_max(s)),
        forall|i: int| 0 <= i < s.len() ==> s[i] <= seq_max(s),
        s.contains(seq_min(s)),
        forall|i: int| 0 <= i < s.len() ==> seq_min(s) <= s[i],
    decreases s.len(),
{
    if s.len() == 1 {
        assert(s[0] == s[0]);
    } else {
        let t = s.drop_last();
        lemma_seq_extremes(t);
        let jx = choose|j: int| 0 <= j < t.len() && t[j] == seq_max(t);
        let jn = choose|j: int| 0 <= j < t.len() && t[j] == seq_min(t);
        assert(s[jx] == t[jx]);
        assert(s[jn] == t[jn]);
        assert(s[s.len() - 1] == s.last());
        assert forall|i: int| 0 <= i < s.len() implies s[i] <= seq_max(s) && seq_min(s) <= s[i] by {
            if i < s.len() - 1 {
                assert(s[i] == t[i]);
            }
        }
    }
}

/// What each aggregate of the present values of a column is, for any
/// values: `Max` gives one of the values that none exceeds, `Min` one that
/// none is below (both only when there is a value), `Count` their number,
/// `Sum` adds each new value to the sum of those before it in 64-bit
/// wrapping arithmetic, and `Avg` gives that sum and count, or no result
/// when there is no value.
pub proof fn lemma_aggregate_laws(vals: Seq<u32>, v: u32)
    ensures
        vals.len() > 0 ==> (aggregate_view(AggregateOp::Max, vals) matches ResultView::IntMax(m) && vals.contains(m)
            && forall|i: int| 0 <= i < vals.len() ==> vals[i] <= m),
        vals.len() > 0 ==> (aggregate_view(AggregateOp::Min, vals) matches ResultView::IntMin(m) && vals.contains(m)
            && forall|i: int| 0 <= i < vals.len() ==> m <= vals[i]),
        aggregate_view(AggregateOp::Count, vals) == ResultView::Count(vals.len() as usize),
        aggregate_view(AggregateOp::Sum, Seq::<u32>::empty()) == ResultView::IntSum(0),
        aggregate_view(AggregateOp::Sum, vals) matches ResultView::IntSum(a) && aggregate_view(
            AggregateOp::Sum,
            vals.push(v),
        ) == ResultView::IntSum(vstd::wrapping::u64_specs::wrapping_add(a, v as u64)),
        vals.len() > 0 ==> (aggregate_view(AggregateOp::Avg, vals) matches ResultView::IntAvg { sum, count } && aggregate_view(
            AggregateOp::Sum,
            vals,
        ) == ResultView::IntSum(sum) && count == vals.len() as usize),
        vals.len() == 0 ==> aggregate_view(AggregateOp::Avg, vals) == ResultView::NoResult,
{
    if vals.len() > 0 {
        lemma_seq_extremes(vals);
    }
    lemma_wrapped_step(vals, wrapped_sum(vals), v);
}

/// The rows `start .. start + len` of `rows`, clipped to its end.
pub open spec fn rows_window<T>(rows: Seq<Option<T>>, start: int, len: int) -> Seq<Option<T>> {
    if start >= rows.len() {
        Seq::empty()
    } else if start + len >= rows.len() {
        rows.subrange(start, rows.len() as int)
    } else {
        rows.subrange(start, start + len)
    }
}

/// The present values of a column's rows.
fn present_values<T: Default + Clone>(data: &ColumnData<T>) -> (r: Vec<T>)
    ensures
        r@.len() == present(data.rows()).len(),
        forall|i: int| 0 <= i < r@.len() ==> cloned::<T>(present(data.rows())[i], #[trigger] r@[i]),
{
    let r = window_values(data, 0, data.data.len());
    proof {
        assert(rows_window(data.rows(), 0, data.data@.len() as int) =~= data.rows());
    }
    r
}

/// The present values of the rows `start .. start + len` of a column.
fn window_values<T: Default + Clone>(data: &ColumnData<T>, start: usize, len: usize) -> (r: Vec<T>)
    ensures
        r@.len() == present(rows_window(data.rows(), start as int, len as int)).len(),
        forall|i: int|
            0 <= i < r@.len() ==> cloned::<T>(
                present(rows_window(data.rows(), start as int, len as int))[i],
                #[trigger] r@[i],
            ),
{
    let n = data.data.len();
    if start >= n {
        proof {
            assert(present(rows_window(data.rows(), start as int, len as int)) =~= Seq::<T>::empty());
        }
        return Vec::new();
    }
    let end: usize = if len >= n - start {
        n
    } else {
        start + len
    };
    let ghost rows = data.rows();
    let mut r: Vec<T> = Vec::new();
    let mut i: usize = start;
    proof {
        assert(rows_window(rows, start as int, len as int) =~= rows.subrange(start as int, end as int));
        assert(rows.subrange(start as int, start as int) =~= Seq::<Option<T>>::empty());
    }
    while i < end
        invariant
            n == data.data@.len(),
            rows == data.rows(),
            rows.len() == n,
            start <= end <= n,
            start <= i <= end,
            r@.len() == present(rows.subrange(start as int, i as int)).len(),
            forall|j: int|
                0 <= j < r@.len() ==> cloned::<T>(present(rows.subrange(start as int, i as int))[j], #[trigger] r@[j]),
        decreases end - i,
    {
        let ghost before = rows.subrange(start as int, i as int);
        let ghost after = rows.subrange(start as int, i + 1);
        proof {
            assert(after.drop_last() =~= before);
            assert(after.last() == rows[i as int]);
            assert(rows[i as int] == data.row(i as int));
        }
        match data.get(i) {
            Some(v) => {
                let c = v.clone();
                r.push(c);
                proof {
                    assert(present(after) == present(before).push(*v));
                    assert forall|j: int| 0 <= j < r@.len() implies cloned::<T>(present(after)[j], #[trigger] r@[j]) by {
                        if j < r@.len() - 1 {
                            assert(r@[j] == r@.drop_last()[j]);
                        }
                    }
                }
            },
            None => {
                proof {
                    assert(present(after) == present(before));
                }
            },
        }
        i = i + 1;
    }
    r
}

/// A read-only view of one partition for the length of a query: the
/// entity pointers and columns of one published snapshot, the Bloom filter
/// and the disk index that tell whether an entity missing from the snapshot
/// may be loaded, and the ids whose load was already tried.
pub struct QuerySession<'a, const N: usize> {
    pub pointers: &'a AHashMap<usize, MultiVectorPointer>,
    pub columns: &'a Columns<N>,
    pub bloom: &'a SimpleBloom<N>,
    pub disk_index: &'a AHashMap<usize, (u64, u32)>,
    pub attempted: Vec<usize>,
}

impl<'a, const N: usize> QuerySession<'a, N> {
    /// The maps of the snapshot are well formed.
    pub open spec fn wf(&self) -> bool {
        &&& self.pointers.wf()
        &&& forall|id: usize| #[trigger] self.pointers@.contains_key(id) ==> self.pointers@[id].attribute_indices.wf()
        &&& self.columns.wf()
        &&& self.bloom.wf()
        &&& self.disk_index.wf()
    }

    /// An entity missing from the snapshot may be loaded: the Bloom filter
    /// reports it, the disk index holds it, and no load of it was tried.
    pub open spec fn may_load(&self, id: usize) -> bool {
        &&& probes_in(self.bloom.view(), self.bloom.item_hash(id), N * 64)
        &&& self.disk_index@.contains_key(id)
        &&& !self.attempted@.contains(id)
    }

    /// The row of `attr` for entity `id`, as the snapshot says.
    pub open spec fn spec_index(&self, id: usize, attr: Seq<char>) -> Lookup<usize> {
        if self.pointers@.contains_key(id) {
            let ix = self.pointers@[id].attribute_indices@;
            if ix.contains_key(attr) {
                Lookup::Found(ix[attr])
            } else {
                Lookup::Absent
            }
        } else if self.may_load(id) {
            Lookup::Load(id)
        } else {
            Lookup::Absent
        }
    }

    /// The integer attribute `attr` of entity `id`.
    pub open spec fn spec_int(&self, id: usize, attr: Seq<char>) -> Lookup<u32> {
        match self.spec_index(id, attr) {
            Lookup::Found(idx) => if self.columns.int_cols@.contains_key(attr) {
                match self.columns.int_cols@[attr].data@.row(idx as int) {
                    Some(v) => Lookup::Found(v),
                    None => Lookup::Absent,
                }
            } else {
                Lookup::Absent
            },
            Lookup::Absent => Lookup::Absent,
            Lookup::Load(x) => Lookup::Load(x),
        }
    }

    /// The string attribute `attr` of entity `id`.
    pub open spec fn spec_str(&self, id: usize, attr: Seq<char>) -> Lookup<Seq<char>> {
        match self.spec_index(id, attr) {
            Lookup::Found(idx) => if self.columns.str_cols@.contains_key(attr) {
                match self.columns.str_cols@[attr].data@.row(idx as int) {
                    Some(v) => Lookup::Found(v@),
                    None => Lookup::Absent,
                }
            } else {
                Lookup::Absent
            },
            Lookup::Absent => Lookup::Absent,
            Lookup::Load(x) => Lookup::Load(x),
        }
    }

    /// The blob attribute `attr` of entity `id`.
    pub open spec fn spec_blob(&self, id: usize, attr: Seq<char>) -> Lookup<Seq<u8>> {
        match self.spec_index(id, attr) {
            Lookup::Found(idx) => if self.columns.blob_cols@.contains_key(attr) {
                match self.columns.blob_cols@[attr].data@.row(idx as int) {
                    Some(v) => Lookup::Found(v@),
                    None => Lookup::Absent,
                }
            } else {
                Lookup::Absent
            },
            Lookup::Absent => Lookup::Absent,
            Lookup::Load(x) => Lookup::Load(x),
        }
    }

    /// A session over one snapshot, with no load tried yet.
    pub fn new(
        pointers: &'a AHashMap<usize, MultiVectorPointer>,
        columns: &'a Columns<N>,
        bloom: &'a SimpleBloom<N>,
        disk_index: &'a AHashMap<usize, (u64, u32)>,
    ) -> (s: Self)
        ensures
            s.pointers == pointers,
            s.columns == columns,
            s.bloom == bloom,
            s.disk_index == disk_index,
            s.attempted@ == Seq::<usize>::empty(),
    {
        QuerySession { pointers, columns, bloom, disk_index, attempted: Vec::new() }
    }

    /// Records that a load of `id` was tried, so that lookups of it no
    /// longer ask for one.
    pub fn mark_attempted(&mut self, id: usize)
        ensures
            final(self).pointers == old(self).pointers,
            final(self).columns == old(self).columns,
            final(self).bloom == old(self).bloom,
            final(self).disk_index == old(self).disk_index,
            final(self).attempted@ == old(self).attempted@.push(id),
    {
        self.attempted.push(id);
    }

    fn was_attempted(&self, id: usize) -> (b: bool)
        ensures
            b == self.attempted@.contains(id),
    {
        let mut i: usize = 0;
        while i < self.attempted.len()
            invariant
                i <= self.attempted@.len(),
                forall|j: int| 0 <= j < i ==> self.attempted@[j] != id,
            decreases self.attempted@.len() - i,
        {
            if self.attempted[i] == id {
                return true;
            }
            i = i + 1;
        }
        false
    }

    /// The pointer of entity `id` in the snapshot; else whether it must be
    /// loaded from disk first.
    pub fn get_pointer(&self, id: usize) -> (r: Lookup<&'a MultiVectorPointer>)
        requires
            self.wf(),
        ensures
            match r {
                Lookup::Found(p) => self.pointers@.contains_key(id) && *p == self.pointers@[id],
                Lookup::Absent => !self.pointers@.contains_key(id) && !self.may_load(id),
                Lookup::Load(x) => x == id && !self.pointers@.contains_key(id) && self.may_load(id),
            },
    {
        match self.pointers.get(&id) {
            Some(p) => Lookup::Found(p),
            None => {
                if !self.bloom.contains(id) {
                    return Lookup::Absent;
                }
                if !self.disk_index.contains_key(&id) {
                    return Lookup::Absent;
                }
                if self.was_attempted(id) {
                    return Lookup::Absent;
                }
                Lookup::Load(id)
            },
        }
    }

    /// The row of `attr` for entity `id`.
    fn get_index(&self, id: usize, attr: &str) -> (r: Lookup<usize>)
        requires
            self.wf(),
        ensures
            r == self.spec_index(id, attr@),
    {
        match self.get_pointer(id) {
            Lookup::Found(p) => {
                let key = attr.to_owned();
                match p.attribute_indices.get(&key) {
                    Some(i) => Lookup::Found(*i),
                    None => Lookup::Absent,
                }
            },
            Lookup::Absent => Lookup::Absent,
            Lookup::Load(x) => Lookup::Load(x),
        }
    }

    /// The integer attribute `attr` of entity `id`.
    pub fn get_int(&self, id: usize, attr: &str) -> (r: Lookup<u32>)
        requires
            self.wf(),
        ensures
            r == self.spec_int(id, attr@),
    {
        match self.get_index(id, attr) {
            Lookup::Found(idx) => {
                let key = attr.to_owned();
                match self.columns.int_cols.get(&key) {
                    Some(col) => match col.get_element_pinned(idx) {
                        Some(v) => Lookup::Found(v),
                        None => Lookup::Absent,
                    },
                    None => Lookup::Absent,
                }
            },
            Lookup::Absent => Lookup::Absent,
            Lookup::Load(x) => Lookup::Load(x),
        }
    }

    /// The string attribute `attr` of entity `id`.
    pub fn get_str(&self, id: usize, attr: &str) -> (r: Lookup<String>)
        requires
            self.wf(),
        ensures
            match (r, self.spec_str(id, attr@)) {
                (Lookup::Found(s), Lookup::Found(v)) => s@ == v,
                (Lookup::Absent, Lookup::Absent) => true,
                (Lookup::Load(x), Lookup::Load(y)) => x == y,
                _ => false,
            },
    {
        match self.get_index(id, attr) {
            Lookup::Found(idx) => {
                let key = attr.to_owned();
                match self.columns.str_cols.get(&key) {
                    Some(col) => match col.get_element_pinned(idx) {
                        Some(v) => Lookup::Found(v),
                        None => Lookup::Absent,
                    },
                    None => Lookup::Absent,
                }
            },
            Lookup::Absent => Lookup::Absent,
            Lookup::Load(x) => Lookup::Load(x),
        }
    }

    /// Applies `f` to the string attribute `attr` of entity `id` where it
    /// is stored, without copying it.
    pub fn with_str<F, R>(&self, id: usize, attr: &str, f: F) -> (r: Lookup<R>)
        where
            F: FnOnce(&str) -> R,
        requires
            self.wf(),
            forall|s: &str| f.requires((s,)),
        ensures
            match (r, self.spec_str(id, attr@)) {
                (Lookup::Found(x), Lookup::Found(v)) => exists|s: &str| s@ == v && f.ensures((s,), x),
                (Lookup::Absent, Lookup::Absent) => true,
                (Lookup::Load(x), Lookup::Load(y)) => x == y,
                _ => false,
            },
    {
        match self.get_index(id, attr) {
            Lookup::Found(idx) => {
                let key = attr.to_owned();
                match self.columns.str_cols.get(&key) {
                    Some(col) => {
                        let data = load_ref(&col.data);
                        match data.get(idx) {
                            Some(v) => {
                                let s = v.as_str();
                                let x = f(s);
                                Lookup::Found(x)
                            },
                            None => Lookup::Absent,
                        }
                    },
                    None => Lookup::Absent,
                }
            },
            Lookup::Absent => Lookup::Absent,
            Lookup::Load(x) => Lookup::Load(x),
        }
    }

    /// Applies `f` to the blob attribute `attr` of entity `id` where it is
    /// stored, without copying it.
    pub fn with_blob<F, R>(&self, id: usize, attr: &str, f: F) -> (r: Lookup<R>)
        where
            F: FnOnce(&[u8]) -> R,
        requires
            self.wf(),
            forall|b: &[u8]| f.requires((b,)),
        ensures
            match (r, self.spec_blob(id, attr@)) {
                (Lookup::Found(x), Lookup::Found(v)) => exists|b: &[u8]| b@ == v && f.ensures((b,), x),
                (Lookup::Absent, Lookup::Absent) => true,
                (Lookup::Load(x), Lookup::Load(y)) => x == y,
                _ => false,
            },
    {
        match self.get_index(id, attr) {
            Lookup::Found(idx) => {
                let key = attr.to_owned();
                match self.columns.blob_cols.get(&key) {
                    Some(col) => {
                        let data = load_ref(&col.data);
                        match data.get(idx) {
                            Some(v) => {
                                let b = v.as_slice();
                                let x = f(b);
                                Lookup::Found(x)
                            },
                            None => Lookup::Absent,
                        }
                    },
                    None => Lookup::Absent,
                }
            },
            Lookup::Absent => Lookup::Absent,
            Lookup::Load(x) => Lookup::Load(x),
        }
    }

    /// The blob attribute `attr` of entity `id`.
    pub fn get_blob(&self, id: usize, attr: &str) -> (r: Lookup<Vec<u8>>)
        requires
            self.wf(),
        ensures
            match (r, self.spec_blob(id, attr@)) {
                (Lookup::Found(s), Lookup::Found(v)) => s@ == v,
                (Lookup::Absent, Lookup::Absent) => true,
                (Lookup::Load(x), Lookup::Load(y)) => x == y,
                _ => false,
            },
    {
        match self.get_index(id, attr) {
            Lookup::Found(idx) => {
                let key = attr.to_owned();
                match self.columns.blob_cols.get(&key) {
                    Some(col) => match col.get_element_pinned(idx) {
                        Some(v) => {
                            proof {
                                let w = self.columns.blob_cols@[key@].data@.row(idx as int)->0;
                                assert(v@ =~= w@);
                            }
                            Lookup::Found(v)
                        },
                        None => Lookup::Absent,
                    },
                    None => Lookup::Absent,
                }
            },
            Lookup::Absent => Lookup::Absent,
            Lookup::Load(x) => Lookup::Load(x),
        }
    }

    /// What a `Get` of `attr` on entity `id` gives: the integer, else the
    /// string, else the blob value, else no result.
    pub open spec fn spec_value(&self, id: usize, attr: Seq<char>) -> OutcomeView {
        match self.spec_int(id, attr) {
            Lookup::Found(v) => OutcomeView::Done(ResultView::Int(v)),
            Lookup::Load(x) => OutcomeView::Load(x),
            Lookup::Absent => match self.spec_str(id, attr) {
                Lookup::Found(v) => OutcomeView::Done(ResultView::Str(v)),
                Lookup::Load(x) => OutcomeView::Load(x),
                Lookup::Absent => match self.spec_blob(id, attr) {
                    Lookup::Found(v) => OutcomeView::Done(ResultView::Blob(v)),
                    Lookup::Load(x) => OutcomeView::Load(x),
                    Lookup::Absent => OutcomeView::Done(ResultView::NoResult),
                },
            },
        }
    }

    /// The rows of the integer column `attr`.
    pub open spec fn int_rows(&self, attr: Seq<char>) -> Seq<Option<u32>> {
        self.columns.int_cols@[attr].data@.rows()
    }

    /// What running `node` gives.
    pub open spec fn spec_node(&self, node: QueryNode) -> OutcomeView {
        match node {
            QueryNode::Get { entity_id, attr } => self.spec_value(entity_id, attr@),
            QueryNode::Link { from_entity_id, link_attr, target_attr } => match self.spec_int(
                from_entity_id,
                link_attr@,
            ) {
                Lookup::Found(t) => self.spec_value(t as usize, target_attr@),
                Lookup::Absent => OutcomeView::Done(ResultView::NoResult),
                Lookup::Load(x) => OutcomeView::Load(x),
            },
            QueryNode::Range { entity_id, attr, len } => match self.spec_index(entity_id, attr@) {
                Lookup::Found(start) => if self.columns.int_cols@.contains_key(attr@) {
                    OutcomeView::Done(
                        ResultView::IntRange(present(rows_window(self.int_rows(attr@), start as int, len as int))),
                    )
                } else {
                    OutcomeView::Done(ResultView::NoResult)
                },
                Lookup::Absent => OutcomeView::Done(ResultView::NoResult),
                Lookup::Load(x) => OutcomeView::Load(x),
            },
            QueryNode::Scan { attr } => if self.columns.int_cols@.contains_key(attr@) {
                OutcomeView::Done(ResultView::IntList(present(self.int_rows(attr@))))
            } else if self.columns.str_cols@.contains_key(attr@) {
                OutcomeView::Done(
                    ResultView::StrList(
                        present(self.columns.str_cols@[attr@].data@.rows()).map_values(|v: String| v@),
                    ),
                )
            } else if self.columns.blob_cols@.contains_key(attr@) {
                OutcomeView::Done(
                    ResultView::BlobList(
                        present(self.columns.blob_cols@[attr@].data@.rows()).map_values(|v: Vec<u8>| v@),
                    ),
                )
            } else {
                OutcomeView::Done(ResultView::NoResult)
            },
            QueryNode::Aggregate { attr, op } => if self.columns.int_cols@.contains_key(attr@) {
                OutcomeView::Done(aggregate_view(op, present(self.int_rows(attr@))))
            } else {
                OutcomeView::Done(ResultView::NoResult)
            },
        }
    }

    /// Runs a `Get` of `attr` on entity `id`.
    fn get_value(&self, id: usize, attr: &str) -> (r: NodeOutcome)
        requires
            self.wf(),
        ensures
            r.view() == self.spec_value(id, attr@),
    {
        match self.get_int(id, attr) {
            Lookup::Found(v) => NodeOutcome::Done(QueryResult::Int(v)),
            Lookup::Load(x) => NodeOutcome::Load(x),
            Lookup::Absent => match self.get_str(id, attr) {
                Lookup::Found(v) => NodeOutcome::Done(QueryResult::Str(v)),
                Lookup::Load(x) => NodeOutcome::Load(x),
                Lookup::Absent => match self.get_blob(id, attr) {
                    Lookup::Found(v) => NodeOutcome::Done(QueryResult::Blob(v)),
                    Lookup::Load(x) => NodeOutcome::Load(x),
                    Lookup::Absent => NodeOutcome::Done(QueryResult::NoResult),
                },
            },
        }
    }

    /// Runs a full scan of the column `attr`: the integer column if there is
    /// one, else the string column, else the blob column.
    fn scan(&self, attr: &str) -> (r: QueryResult)
        requires
            self.wf(),
        ensures
            OutcomeView::Done(r.view()) == self.spec_node(QueryNode::Scan { attr }),
    {
        let key = attr.to_owned();
        match self.columns.int_cols.get(&key) {
            Some(col) => {
                let vals = present_values(load_ref(&col.data));
                proof {
                    assert(vals@ =~= present(self.int_rows(attr@)));
                }
                return QueryResult::IntList(vals);
            },
            None => {},
        }
        match self.columns.str_cols.get(&key) {
            Some(col) => {
                let vals = present_values(load_ref(&col.data));
                proof {
                    let want = present(self.columns.str_cols@[attr@].data@.rows());
                    assert(vals@.map_values(|v: String| v@) =~= want.map_values(|v: String| v@)) by {
                        assert forall|i: int| 0 <= i < vals@.len() implies vals@[i]@ == want[i]@ by {
                            assert(cloned::<String>(want[i], vals@[i]));
                        }
                    }
                }
                return QueryResult::StrList(vals);
            },
            None => {},
        }
        match self.columns.blob_cols.get(&key) {
            Some(col) => {
                let vals = present_values(load_ref(&col.data));
                proof {
                    let want = present(self.columns.blob_cols@[attr@].data@.rows());
                    assert(vals@.map_values(|v: Vec<u8>| v@) =~= want.map_values(|v: Vec<u8>| v@)) by {
                        assert forall|i: int| 0 <= i < vals@.len() implies vals@[i]@ == want[i]@ by {
                            assert(cloned::<Vec<u8>>(want[i], vals@[i]));
                            assert(vals@[i]@ =~= want[i]@);
                        }
                    }
                }
                return QueryResult::BlobList(vals);
            },
            None => {},
        }
        QueryResult::NoResult
    }

    /// Runs one step of a query.
    pub fn execute_node(&self, node: &QueryNode) -> (r: NodeOutcome)
        requires
            self.wf(),
        ensures
            r.view() == self.spec_node(*node),
    {
        match node {
            QueryNode::Get { entity_id, attr } => self.get_value(*entity_id, attr),
            QueryNode::Link { from_entity_id, link_attr, target_attr } => match self.get_int(
                *from_entity_id,
                link_attr,
            ) {
                Lookup::Found(t) => self.get_value(t as usize, target_attr),
                Lookup::Absent => NodeOutcome::Done(QueryResult::NoResult),
                Lookup::Load(x) => NodeOutcome::Load(x),
            },
            QueryNode::Range { entity_id, attr, len } => match self.get_index(*entity_id, attr) {
                Lookup::Found(start) => {
                    let key = (*attr).to_owned();
                    match self.columns.int_cols.get(&key) {
                        Some(col) => {
                            let vals = window_values(load_ref(&col.data), start, *len);
                            proof {
                                assert(vals@ =~= present(rows_window(self.int_rows(attr@), start as int, *len as int)));
                            }
                            NodeOutcome::Done(QueryResult::IntRange(vals))
                        },
                        None => NodeOutcome::Done(QueryResult::NoResult),
                    }
                },
                Lookup::Absent => NodeOutcome::Done(QueryResult::NoResult),
                Lookup::Load(x) => NodeOutcome::Load(x),
            },
            QueryNode::Scan { attr } => NodeOutcome::Done(self.scan(attr)),
            QueryNode::Aggregate { attr, op } => {
                let key = (*attr).to_owned();
                match self.columns.int_cols.get(&key) {
                    Some(col) => {
                        let vals = present_values(load_ref(&col.data));
                        proof {
                            assert(vals@ =~= present(self.int_rows(attr@)));
                        }
                        NodeOutcome::Done(aggregate(op, &vals))
                    },
                    None => NodeOutcome::Done(QueryResult::NoResult),
                }
            },
        }
    }

    /// Runs the steps of `nodes` from `start` in order, until one needs an
    /// entity loaded from disk. Gives the results of the steps that ran and,
    /// if a step stopped the run, the entity it needs: that step is the one
    /// after the last result.
    pub fn execute_batch_from(&self, nodes: &[QueryNode], start: usize) -> (r: (Vec<QueryResult>, Option<usize>))
        requires
            self.wf(),
            start <= nodes@.len(),
        ensures
            start + r.0@.len() <= nodes@.len(),
            forall|i: int|
                0 <= i < r.0@.len() ==> OutcomeView::Done((#[trigger] r.0@[i]).view()) == self.spec_node(
                    nodes@[start + i],
                ),
            match r.1 {
                Some(id) => start + r.0@.len() < nodes@.len() && self.spec_node(nodes@[start + r.0@.len()])
                    == OutcomeView::Load(id),
                None => start + r.0@.len() == nodes@.len(),
            },
    {
        let mut out: Vec<QueryResult> = Vec::new();
        let mut i: usize = start;
        while i < nodes.len()
            invariant
                self.wf(),
                start <= i <= nodes@.len(),
                out@.len() == i - start,
                forall|j: int|
                    0 <= j < out@.len() ==> OutcomeView::Done((#[trigger] out@[j]).view()) == self.spec_node(
                        nodes@[start + j],
                    ),
            decreases nodes@.len() - i,
        {
            match self.execute_node(&nodes[i]) {
                NodeOutcome::Done(res) => {
                    out.push(res);
                    proof {
                        assert forall|j: int| 0 <= j < out@.len() implies OutcomeView::Done(
                            (#[trigger] out@[j]).view(),
                        ) == self.spec_node(nodes@[start + j]) by {
                            if j < out@.len() - 1 {
                                assert(out@[j] == out@.drop_last()[j]);
                            }
                        }
                    }
                },
                NodeOutcome::Load(id) => {
                    return (out, Some(id));
                },
            }
            i = i + 1;
        }
        (out, None)
    }

    /// The 64-bit wrapping sum of the present values of the rows
    /// `start_idx .. start_idx + len` of the integer column `attr`, if there
    /// is such a column.
    pub fn sum_int_range(&self, attr: &str, start_idx: usize, len: usize) -> (r: Option<u64>)
        requires
            self.wf(),
        ensures
            match r {
                Some(v) => self.columns.int_cols@.contains_key(attr@) && v == wrapped_sum(
                    present(rows_window(self.int_rows(attr@), start_idx as int, len as int)),
                ),
                None => !self.columns.int_cols@.contains_key(attr@),
            },
    {
        let key = attr.to_owned();
        match self.columns.int_cols.get(&key) {
            Some(col) => {
                let vals = window_values(load_ref(&col.data), start_idx, len);
                proof {
                    assert(vals@ =~= present(rows_window(self.int_rows(attr@), start_idx as int, len as int)));
                }
                match aggregate(&AggregateOp::Sum, &vals) {
                    QueryResult::IntSum(v) => Some(v),
                    _ => None,
                }
            },
            None => None,
        }
    }

    /// The payload blob and the `epoch` and `type` integers of a signed
    /// record, when the entity has all three.
    pub fn get_signed_record(&self, id: usize) -> (r: Lookup<(Vec<u8>, u32, u32)>)
        requires
            self.wf(),
        ensures
            match r {
                Lookup::Found(t) => self.spec_blob(id, "payload"@) == Lookup::Found(t.0@) && self.spec_int(
                    id,
                    "epoch"@,
                ) == Lookup::Found(t.1) && self.spec_int(id, "type"@) == Lookup::Found(t.2),
                Lookup::Load(x) => self.spec_blob(id, "payload"@) == Lookup::<Seq<u8>>::Load(x),
                Lookup::Absent => !(self.spec_blob(id, "payload"@) is Found) || !(self.spec_int(id, "epoch"@) is Found)
                    || !(self.spec_int(id, "type"@) is Found),
            },
    {
        let payload = match self.get_blob(id, "payload") {
            Lookup::Found(p) => p,
            Lookup::Absent => return Lookup::Absent,
            Lookup::Load(x) => return Lookup::Load(x),
        };
        let epoch = match self.get_int(id, "epoch") {
            Lookup::Found(v) => v,
            _ => return Lookup::Absent,
        };
        let record_type = match self.get_int(id, "type") {
            Lookup::Found(v) => v,
            _ => return Lookup::Absent,
        };
        Lookup::Found((payload, epoch, record_type))
    }

    /// The ids of the entities of the snapshot that hold at least one
    /// attribute, each once.
    pub fn entity_ids(&self) -> (r: Vec<usize>)
        requires
            self.wf(),
        ensures
            forall|j: int| 0 <= j < r@.len() ==> self.pointers@.contains_key(#[trigger] r@[j])
                && self.pointers@[r@[j]].attribute_indices@.len() > 0,
            forall|id: usize| #[trigger] self.pointers@.contains_key(id) && self.pointers@[id].attribute_indices@.len() > 0
                ==> r@.contains(id),
            forall|j1: int, j2: int| 0 <= j1 < j2 < r@.len() ==> r@[j1] != r@[j2],
    {
        let entries = self.pointers.iter();
        let mut r: Vec<usize> = Vec::new();
        let mut i: usize = 0;
        while i < entries.len()
            invariant
                self.wf(),
                i <= entries@.len(),
                forall|j: int| 0 <= j < entries@.len() ==> self.pointers@.contains_key((#[trigger] entries@[j]).0@)
                    && self.pointers@[entries@[j].0@] == *entries@[j].1,
                forall|kv: usize| #[trigger] self.pointers@.contains_key(kv) ==> exists|j: int| 0 <= j < entries@.len()
                    && (#[trigger] entries@[j]).0@ == kv,
                forall|j1: int, j2: int| 0 <= j1 < j2 < entries@.len() ==> (#[trigger] entries@[j1]).0@ != (#[trigger] entries@[j2]).0@,
                forall|j: int| 0 <= j < r@.len() ==> self.pointers@.contains_key(#[trigger] r@[j])
                    && self.pointers@[r@[j]].attribute_indices@.len() > 0,
                forall|j: int| 0 <= j < r@.len() ==> exists|k: int| 0 <= k < i && (#[trigger] entries@[k]).0@ == #[trigger] r@[j],
                forall|k: int| 0 <= k < i && (#[trigger] entries@[k]).1.attribute_indices@.len() > 0 ==> r@.contains(*entries@[k].0),
                forall|j1: int, j2: int| 0 <= j1 < j2 < r@.len() ==> r@[j1] != r@[j2],
            decreases entries@.len() - i,
        {
            let (k, p) = entries[i];
            proof {
                p.attribute_indices.lemma_finite();
            }
            if !p.attribute_indices.is_empty() {
                proof {
                    assert forall|j: int| 0 <= j < r@.len() implies r@[j] != *k by {
                        let kk = choose|kk: int| 0 <= kk < i && (#[trigger] entries@[kk]).0@ == r@[j];
                        assert(entries@[kk].0@ != entries@[i as int].0@);
                    }
                }
                let ghost old_r = r@;
                r.push(*k);
                proof {
                    assert(r@ == old_r.push(*k));
                    assert forall|j: int| 0 <= j < r@.len() implies exists|kk: int| 0 <= kk < i + 1
                        && (#[trigger] entries@[kk]).0@ == #[trigger] r@[j] by {
                        if j == r@.len() - 1 {
                            assert(entries@[i as int].0@ == r@[j]);
                        } else {
                            assert(r@[j] == r@.drop_last()[j]);
                            let kk = choose|kk: int| 0 <= kk < i && (#[trigger] entries@[kk]).0@ == r@.drop_last()[j];
                        }
                    }
                    assert forall|kk: int| 0 <= kk < i + 1 && (#[trigger] entries@[kk]).1.attribute_indices@.len() > 0
                        implies r@.contains(*entries@[kk].0) by {
                        if kk == i {
                            assert(r@[r@.len() - 1] == *k);
                        } else {
                            assert(old_r.contains(*entries@[kk].0));
                            let w = choose|w: int| 0 <= w < old_r.len() && old_r[w] == *entries@[kk].0;
                            assert(r@[w] == old_r[w]);
                        }
                    }
                }
            }
            i = i + 1;
        }
        proof {
            assert forall|id: usize| #[trigger] self.pointers@.contains_key(id) && self.pointers@[id].attribute_indices@.len()
                > 0 implies r@.contains(id) by {
                let kk = choose|kk: int| 0 <= kk < entries@.len() && (#[trigger] entries@[kk]).0@ == id;
                assert(*entries@[kk].1 == self.pointers@[id]);
            }
        }
        r
    }
}

} // verus!
