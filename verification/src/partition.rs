//! A partition's writer: it applies write commands to the columns and the
//! entity pointers, persists every inserted entity, keeps the Bloom filter
//! of stored ids, and loads cold entities back from disk on request.

use vstd::prelude::*;
use crate::bloom::{lemma_inserted_reported, lemma_probes_stay, probes_in, SimpleBloom};
use crate::column::{ColumnArray, ColumnData, Columns, MultiVectorPointer};
use crate::commands::{item_view, item_wf, Attributes, AttrsView, CommandView, PartitionCommand, ResponseSender, WriteCommand};
use crate::map::{AHashMap, MAX_ENTRIES};
use crate::platform::FileSystem;
use crate::query::{Lookup, QuerySession};
use crate::qsbr::QsbrManager;
use crate::rcu::{lemma_same_value, swap_ptr};
use crate::storage::{frame, holds_entity, EntityData, Storage};
use crate::commands::attrs_encodable;
use crate::commands::encodes_entity;
use crate::wal::{decoded, replay_commands, wal_records, WalProvider};
use crate::commands::MAX_INPUT;

verus! {

/// Row `idx` of `col` now holds `val`: the column's rows are those of
/// `old_col` with `val` written at `idx`.
pub open spec fn wrote_row<T>(old_col: ColumnData<T>, col: ColumnData<T>, idx: int, val: T) -> bool {
    &&& col.row(idx) == Some(val)
    &&& forall|j: int| 0 <= j < old_col.data@.len() && j != idx ==> #[trigger] col.row(j) == old_col.row(j)
}

/// Column `new` is column `old` with rows added at its end: the waitlist
/// is the same, and every row of `old` reads the same.
pub open spec fn col_grows<T, const N: usize>(old: ColumnArray<T, N>, new: ColumnArray<T, N>) -> bool {
    &&& new.waitlist@@ == old.waitlist@@
    &&& old.data@.data@.len() <= new.data@.data@.len()
    &&& forall|j: int| 0 <= j < old.data@.data@.len() ==> #[trigger] new.data@.row(j) == old.data@.row(j)
}

/// Every column of `old` grew into the column of the same name of `new`.
pub open spec fn cols_grow<T, const N: usize>(
    old: Map<Seq<char>, ColumnArray<T, N>>,
    new: Map<Seq<char>, ColumnArray<T, N>>,
) -> bool {
    forall|k: Seq<char>| #[trigger] old.contains_key(k) ==> new.contains_key(k) && col_grows(old[k], new[k])
}

/// No column of `m` has rows waiting to be reused.
/// Every column map grows into itself.
proof fn lemma_cols_grow_refl<T, const N: usize>(m: Map<Seq<char>, ColumnArray<T, N>>)
    ensures
        cols_grow(m, m),
{
}

pub open spec fn no_waitlists<T, const N: usize>(m: Map<Seq<char>, ColumnArray<T, N>>) -> bool {
    forall|k: Seq<char>| #[trigger] m.contains_key(k) ==> m[k].waitlist@@.len() == 0
}

/// Growth is transitive.
pub proof fn lemma_cols_grow_trans<T, const N: usize>(
    a: Map<Seq<char>, ColumnArray<T, N>>,
    b: Map<Seq<char>, ColumnArray<T, N>>,
    c: Map<Seq<char>, ColumnArray<T, N>>,
)
    requires
        cols_grow(a, b),
        cols_grow(b, c),
    ensures
        cols_grow(a, c),
{
    assert forall|k: Seq<char>| #[trigger] a.contains_key(k) implies c.contains_key(k) && col_grows(a[k], c[k]) by {
        assert(b.contains_key(k) && col_grows(a[k], b[k]));
        assert(c.contains_key(k) && col_grows(b[k], c[k]));
        assert forall|j: int| 0 <= j < a[k].data@.data@.len() implies #[trigger] c[k].data@.row(j) == a[k].data@.row(j) by {
            assert(b[k].data@.row(j) == a[k].data@.row(j));
            assert(c[k].data@.row(j) == b[k].data@.row(j));
        }
    }
}

/// Column `c` takes no more rows: the row it would write lies past
/// `usize::MAX - 1`.
pub open spec fn at_capacity<T, const N: usize>(c: ColumnArray<T, N>) -> bool {
    if c.waitlist@@.len() > 0 {
        c.waitlist@@.last() == usize::MAX
    } else {
        c.data@.data@.len() >= usize::MAX - 1
    }
}

/// Writes `val` to a row of `col`: the last row of the waitlist, which is
/// taken off the list, or else a new row at the end. Gives the row, or
/// nothing when the row would lie past `usize::MAX - 1`.
pub fn insert_into_column<T: Default + Clone, const N: usize>(col: &mut ColumnArray<T, N>, val: T) -> (r: Option<usize>)
    ensures
        final(col).write_guard == old(col).write_guard,
        match r {
            Some(idx) => {
                &&& wrote_row(old(col).data@, final(col).data@, idx as int, val)
                &&& if old(col).waitlist@@.len() > 0 {
                    &&& idx == old(col).waitlist@@.last()
                    &&& final(col).waitlist@@ == old(col).waitlist@@.drop_last()
                } else {
                    &&& idx == old(col).data@.data@.len()
                    &&& final(col).waitlist@@ == old(col).waitlist@@
                }
            },
            None => *final(col) == *old(col),
        },
        r is None <==> at_capacity(*old(col)),
        old(col).waitlist@@.len() == 0 ==> col_grows(*old(col), *final(col)),
{
    let ghost before = *col;
    let mut wl = swap_ptr(&mut col.waitlist, Vec::new());
    let mut data = swap_ptr(&mut col.data, ColumnData::new());
    let idx: usize;
    if wl.len() > 0 {
        let i = wl[wl.len() - 1];
        if i == usize::MAX {
            let _ = swap_ptr(&mut col.waitlist, wl);
            let _ = swap_ptr(&mut col.data, data);
            proof {
                lemma_same_value(col.waitlist, before.waitlist);
                lemma_same_value(col.data, before.data);
            }
            return None;
        }
        wl.pop();
        data.set(i, val);
        idx = i;
        proof {
            assert forall|j: int| 0 <= j < before.data@.data@.len() && j != idx implies #[trigger] data.row(j)
                == before.data@.row(j) by {
                assert(data.valid_at(j) == before.data@.valid_at(j));
            }
        }
    } else {
        let n = data.len();
        if n >= usize::MAX - 1 {
            let _ = swap_ptr(&mut col.waitlist, wl);
            let _ = swap_ptr(&mut col.data, data);
            proof {
                lemma_same_value(col.waitlist, before.waitlist);
                lemma_same_value(col.data, before.data);
            }
            return None;
        }
        data.push(val);
        idx = n;
        proof {
            assert forall|j: int| 0 <= j < before.data@.data@.len() && j != idx implies #[trigger] data.row(j)
                == before.data@.row(j) by {
                assert(data.valid_at(j) == before.data@.valid_at(j));
                assert(data.data@[j] == before.data@.data@[j]);
            }
        }
    }
    let _ = swap_ptr(&mut col.waitlist, wl);
    let _ = swap_ptr(&mut col.data, data);
    Some(idx)
}

/// Writes `val` to a row of the column `name` of `cols`, creating the
/// column when it is missing. Gives the row, or nothing when the column is
/// at capacity.
pub fn insert_named<T: Default + Clone, const N: usize>(
    cols: &mut AHashMap<String, ColumnArray<T, N>>,
    name: &String,
    val: T,
) -> (r: Option<usize>)
    requires
        old(cols).wf(),
        old(cols)@.len() < MAX_ENTRIES,
    ensures
        final(cols).wf(),
        final(cols)@.contains_key(name@),
        final(cols)@.dom() == old(cols)@.dom().insert(name@),
        forall|k: Seq<char>| k != name@ && #[trigger] old(cols)@.contains_key(k) ==> final(cols)@[k] == old(cols)@[k],
        old(cols)@.contains_key(name@) ==> final(cols)@[name@].write_guard == old(cols)@[name@].write_guard,
        match r {
            Some(i) => {
                &&& final(cols)@[name@].data@.row(i as int) == Some(val)
                &&& old(cols)@.contains_key(name@) ==> wrote_row(
                    old(cols)@[name@].data@,
                    final(cols)@[name@].data@,
                    i as int,
                    val,
                )
            },
            None => old(cols)@.contains_key(name@) && at_capacity(old(cols)@[name@]) && final(cols)@[name@]
                == old(cols)@[name@],
        },
        no_waitlists(old(cols)@) ==> cols_grow(old(cols)@, final(cols)@) && no_waitlists(final(cols)@),
{
    if !cols.contains_key(name) {
        proof {
            cols.lemma_finite();
        }
        cols.insert(name.clone(), ColumnArray::new());
    }
    let ghost mid = cols@;
    proof {
        assert(cols@.dom() =~= old(cols)@.dom().insert(name@));
    }
    match cols.get_mut(name) {
        Some(col) => {
            let ghost before_col = *col;
            let r = insert_into_column(col, val);
            proof {
                assert(cols@ == mid.insert(name@, *col));
                assert(cols@.dom() =~= old(cols)@.dom().insert(name@));
                if no_waitlists(old(cols)@) {
                    assert(before_col.waitlist@@.len() == 0);
                    assert(col_grows(before_col, *col));
                    assert forall|k: Seq<char>| #[trigger] old(cols)@.contains_key(k) implies cols@.contains_key(k)
                        && col_grows(old(cols)@[k], cols@[k]) by {
                        if k == name@ {
                            assert(before_col == old(cols)@[k]);
                        } else {
                            assert(cols@[k] == old(cols)@[k]);
                        }
                    }
                    assert forall|k: Seq<char>| #[trigger] cols@.contains_key(k) implies cols@[k].waitlist@@.len() == 0 by {
                        if k != name@ {
                            assert(cols@[k] == old(cols)@[k]);
                        }
                    }
                }
            }
            r
        },
        None => None,
    }
}

/// The entry of `es` at or past `i` with key `k` holds `v`, or `k` is in
/// no such entry.
pub open spec fn key_from<T>(es: Seq<(String, T)>, i: int, k: Seq<char>) -> bool {
    exists|j: int| i <= j < es.len() && (#[trigger] es[j]).0@ == k
}

/// What writing an entry `(k, v)` left: the column `k` was at capacity and
/// the index of `k` is unchanged, or the index of `k` names a row of the
/// column `k` that holds `v`.
pub open spec fn entry_written<T, const N: usize>(
    cols: Map<Seq<char>, ColumnArray<T, N>>,
    idx: Map<Seq<char>, usize>,
    old_idx: Map<Seq<char>, usize>,
    k: Seq<char>,
    v: T,
) -> bool {
    ||| (at_capacity(cols[k]) && idx.contains_key(k) == old_idx.contains_key(k) && (old_idx.contains_key(k)
        ==> idx[k] == old_idx[k]))
    ||| (idx.contains_key(k) && cols[k].data@.row(idx[k] as int) == Some(v))
}

/// Writes every entry `(name, value)` to a row of the column `name`, and
/// points `idx` at the rows written.
pub fn insert_all<T: Default + Clone, const N: usize>(
    cols: &mut AHashMap<String, ColumnArray<T, N>>,
    entries: Vec<(String, T)>,
    idx: &mut AHashMap<String, usize>,
)
    requires
        old(cols).wf(),
        old(idx).wf(),
        old(cols)@.len() + entries@.len() < MAX_ENTRIES,
        old(idx)@.len() + entries@.len() < MAX_ENTRIES,
        forall|j1: int, j2: int| 0 <= j1 < j2 < entries@.len() ==> (#[trigger] entries@[j1]).0@ != (#[trigger] entries@[j2]).0@,
    ensures
        final(cols).wf(),
        final(idx).wf(),
        final(cols)@.len() <= old(cols)@.len() + entries@.len(),
        final(idx)@.len() <= old(idx)@.len() + entries@.len(),
        forall|j: int| 0 <= j < entries@.len() ==> final(cols)@.contains_key((#[trigger] entries@[j]).0@),
        forall|j: int|
            0 <= j < entries@.len() ==> entry_written(
                final(cols)@,
                final(idx)@,
                old(idx)@,
                (#[trigger] entries@[j]).0@,
                entries@[j].1,
            ),
        forall|k: Seq<char>|
            !key_from(entries@, 0, k) ==> (#[trigger] final(idx)@.contains_key(k) == old(idx)@.contains_key(k)
                && (old(idx)@.contains_key(k) ==> final(idx)@[k] == old(idx)@[k]) && final(cols)@.contains_key(k)
                == old(cols)@.contains_key(k) && (old(cols)@.contains_key(k) ==> final(cols)@[k] == old(cols)@[k])),
        no_waitlists(old(cols)@) ==> cols_grow(old(cols)@, final(cols)@) && no_waitlists(final(cols)@),
{
    let ghost es = entries@;
    let ghost n = es.len() as int;
    let ghost cols0 = cols@;
    let ghost idx0 = idx@;
    let mut entries = entries;
    while entries.len() > 0
        invariant
            n == es.len(),
            entries@.len() <= n,
            entries@ == es.take(entries@.len() as int),
            forall|j1: int, j2: int| 0 <= j1 < j2 < es.len() ==> (#[trigger] es[j1]).0@ != (#[trigger] es[j2]).0@,
            cols.wf(),
            idx.wf(),
            cols@.len() <= cols0.len() + (n - entries@.len()),
            idx@.len() <= idx0.len() + (n - entries@.len()),
            cols0.len() + n < MAX_ENTRIES,
            idx0.len() + n < MAX_ENTRIES,
            forall|j: int| entries@.len() <= j < n ==> cols@.contains_key((#[trigger] es[j]).0@),
            forall|j: int| entries@.len() <= j < n ==> entry_written(cols@, idx@, idx0, (#[trigger] es[j]).0@, es[j].1),
            forall|k: Seq<char>|
                !key_from(es, entries@.len() as int, k) ==> (#[trigger] idx@.contains_key(k) == idx0.contains_key(k)
                    && (idx0.contains_key(k) ==> idx@[k] == idx0[k]) && cols@.contains_key(k) == cols0.contains_key(k)
                    && (cols0.contains_key(k) ==> cols@[k] == cols0[k])),
            no_waitlists(cols0) ==> cols_grow(cols0, cols@) && no_waitlists(cols@),
        decreases entries@.len(),
    {
        let ghost i = entries@.len() - 1;
        let ghost pre_cols = cols@;
        let ghost pre_idx = idx@;
        let (name, val) = entries.pop().unwrap();
        proof {
            assert(es[i] == (name, val));
            assert(entries@ =~= es.take(i));
            cols.lemma_finite();
            idx.lemma_finite();
            assert(!key_from(es, i + 1, name@)) by {
                if key_from(es, i + 1, name@) {
                    let j = choose|j: int| i + 1 <= j < es.len() && (#[trigger] es[j]).0@ == name@;
                    assert(es[i].0@ != es[j].0@);
                }
            }
        }
        let r = insert_named(cols, &name, val);
        proof {
            cols.lemma_finite();
            if no_waitlists(cols0) {
                lemma_cols_grow_trans(cols0, pre_cols, cols@);
            }
        }
        match r {
            Some(row) => {
                idx.insert(name, row);
            },
            None => {},
        }
        proof {
            assert forall|k: Seq<char>| !key_from(es, i, k) implies (#[trigger] idx@.contains_key(k) == idx0.contains_key(k)
                && (idx0.contains_key(k) ==> idx@[k] == idx0[k]) && cols@.contains_key(k) == cols0.contains_key(k)
                && (cols0.contains_key(k) ==> cols@[k] == cols0[k])) by {
                assert(!key_from(es, i + 1, k)) by {
                    if key_from(es, i + 1, k) {
                        let j = choose|j: int| i + 1 <= j < es.len() && (#[trigger] es[j]).0@ == k;
                        assert(key_from(es, i, k));
                    }
                }
                if k == es[i].0@ {
                    assert(key_from(es, i, k));
                }
            }
            assert forall|j: int| i <= j < n implies cols@.contains_key((#[trigger] es[j]).0@) by {
            }
            assert forall|j: int| i <= j < n implies entry_written(cols@, idx@, idx0, (#[trigger] es[j]).0@, es[j].1) by {
                if j == i {
                    assert(!key_from(es, i + 1, es[i].0@));
                    assert(pre_idx.contains_key(es[i].0@) == idx0.contains_key(es[i].0@));
                } else {
                    let k = es[j].0@;
                    assert(k != es[i].0@);
                    assert(entry_written(pre_cols, pre_idx, idx0, k, es[j].1));
                }
            }
        }
    }
}

/// The value `v` of attribute `k` was written: its column was at capacity,
/// or the pointer's index of `k` names a row of the column `k` holding a
/// value whose view is `v`.
pub open spec fn written_str<const N: usize>(
    cols: Map<Seq<char>, ColumnArray<String, N>>,
    idx: Map<Seq<char>, usize>,
    k: Seq<char>,
    v: Seq<char>,
) -> bool {
    &&& cols.contains_key(k)
    &&& written_row_str(cols, idx, k, v)
}

pub open spec fn written_row_str<const N: usize>(
    cols: Map<Seq<char>, ColumnArray<String, N>>,
    idx: Map<Seq<char>, usize>,
    k: Seq<char>,
    v: Seq<char>,
) -> bool {
    ||| at_capacity(cols[k])
    ||| (idx.contains_key(k) && (cols[k].data@.row(idx[k] as int) matches Some(s) && s@ == v))
}

pub open spec fn written_int<const N: usize>(
    cols: Map<Seq<char>, ColumnArray<u32, N>>,
    idx: Map<Seq<char>, usize>,
    k: Seq<char>,
    v: u32,
) -> bool {
    &&& cols.contains_key(k)
    &&& written_row_int(cols, idx, k, v)
}

pub open spec fn written_row_int<const N: usize>(
    cols: Map<Seq<char>, ColumnArray<u32, N>>,
    idx: Map<Seq<char>, usize>,
    k: Seq<char>,
    v: u32,
) -> bool {
    ||| at_capacity(cols[k])
    ||| (idx.contains_key(k) && cols[k].data@.row(idx[k] as int) == Some(v))
}

pub open spec fn written_blob<const N: usize>(
    cols: Map<Seq<char>, ColumnArray<Vec<u8>, N>>,
    idx: Map<Seq<char>, usize>,
    k: Seq<char>,
    v: Seq<u8>,
) -> bool {
    &&& cols.contains_key(k)
    &&& written_row_blob(cols, idx, k, v)
}

pub open spec fn written_row_blob<const N: usize>(
    cols: Map<Seq<char>, ColumnArray<Vec<u8>, N>>,
    idx: Map<Seq<char>, usize>,
    k: Seq<char>,
    v: Seq<u8>,
) -> bool {
    ||| at_capacity(cols[k])
    ||| (idx.contains_key(k) && (cols[k].data@.row(idx[k] as int) matches Some(b) && b@ == v))
}

/// The attributes `a1`, `a2`, `a3` were written for the pointer `p`: each
/// value of the blob map, each value of the integer map whose name is not a
/// blob's, each value of the string map whose name is neither; and `p`
/// indexes no other name.
pub open spec fn attrs_written<const N: usize>(
    cols: Columns<N>,
    p: MultiVectorPointer,
    a1: Map<Seq<char>, Seq<char>>,
    a2: Map<Seq<char>, u32>,
    a3: Map<Seq<char>, Seq<u8>>,
) -> bool {
    let idx = p.attribute_indices@;
    &&& forall|k: Seq<char>| #[trigger] a3.contains_key(k) ==> written_blob(cols.blob_cols@, idx, k, a3[k])
    &&& forall|k: Seq<char>|
        #[trigger] a2.contains_key(k) && !a3.contains_key(k) ==> written_int(cols.int_cols@, idx, k, a2[k])
    &&& forall|k: Seq<char>|
        #[trigger] a1.contains_key(k) && !a2.contains_key(k) && !a3.contains_key(k) ==> written_str(
            cols.str_cols@,
            idx,
            k,
            a1[k],
        )
    &&& forall|k: Seq<char>|
        #[trigger] idx.contains_key(k) ==> a1.contains_key(k) || a2.contains_key(k) || a3.contains_key(k)
}

/// A copy of a pointer.
pub fn copy_pointer(p: &MultiVectorPointer) -> (r: MultiVectorPointer)
    requires
        p.attribute_indices.wf(),
        p.attribute_indices@.len() < MAX_ENTRIES,
    ensures
        r.entity_id == p.entity_id,
        r.attribute_indices.wf(),
        r.attribute_indices@ == p.attribute_indices@,
{
    let m = &p.attribute_indices;
    let entries = m.iter();
    let mut r: AHashMap<String, usize> = AHashMap::new();
    let mut i: usize = 0;
    proof {
        m.lemma_finite();
    }
    while i < entries.len()
        invariant
            m.wf(),
            m@.dom().finite(),
            m@.len() < MAX_ENTRIES,
            i <= entries@.len(),
            r.wf(),
            forall|j: int| 0 <= j < entries@.len() ==> m@.contains_key((#[trigger] entries@[j]).0@) && m@[entries@[j].0@]
                == *entries@[j].1,
            forall|j1: int, j2: int|
                0 <= j1 < j2 < entries@.len() ==> (#[trigger] entries@[j1]).0@ != (#[trigger] entries@[j2]).0@,
            forall|k: Seq<char>| #[trigger] r@.contains_key(k) <==> exists|j: int| 0 <= j < i && (#[trigger] entries@[j]).0@ == k,
            forall|k: Seq<char>| #[trigger] r@.contains_key(k) ==> r@[k] == m@[k],
        decreases entries@.len() - i,
    {
        let (k, v) = entries[i];
        let ghost prev = r@;
        proof {
            r.lemma_finite();
            assert(!prev.contains_key(k@)) by {
                if prev.contains_key(k@) {
                    let j = choose|j: int| 0 <= j < i && (#[trigger] entries@[j]).0@ == k@;
                    assert(entries@[j].0@ != entries@[i as int].0@);
                }
            }
            assert(prev.dom().insert(k@).subset_of(m@.dom()));
            vstd::set_lib::lemma_len_subset(prev.dom().insert(k@), m@.dom());
        }
        r.insert(k.clone(), *v);
        proof {
            assert forall|kk: Seq<char>| #[trigger] r@.contains_key(kk) <==> exists|j: int|
                0 <= j < i + 1 && (#[trigger] entries@[j]).0@ == kk by {
                if kk == k@ {
                    assert(entries@[i as int].0@ == kk);
                }
                if exists|j: int| 0 <= j < i + 1 && (#[trigger] entries@[j]).0@ == kk {
                    let j = choose|j: int| 0 <= j < i + 1 && (#[trigger] entries@[j]).0@ == kk;
                    if j < i {
                        assert(prev.contains_key(kk));
                    }
                }
            }
        }
        i = i + 1;
    }
    proof {
        assert forall|k: Seq<char>| m@.contains_key(k) implies #[trigger] r@.contains_key(k) by {
            let j = choose|j: int| 0 <= j < entries@.len() && (#[trigger] entries@[j]).0@ == k;
        }
        assert(r@ =~= m@);
    }
    MultiVectorPointer { entity_id: p.entity_id, attribute_indices: r }
}

/// A command's writes are well formed.
pub open spec fn command_wf(c: PartitionCommand) -> bool {
    match c {
        PartitionCommand::Write(w) => w.wf(),
        _ => true,
    }
}

/// A reply to a load of `id` carries no pointer, or the pointer of `id`.
pub open spec fn reply_for(
    reply: (Box<dyn ResponseSender<Option<MultiVectorPointer>>>, Option<MultiVectorPointer>),
    id: usize,
) -> bool {
    reply.1 matches Some(p) ==> p.entity_id == id
}

/// The ids that the load requests of `cmds` ask for, in order.
pub open spec fn load_ids(cmds: Seq<PartitionCommand>) -> Seq<usize>
    decreases cmds.len(),
{
    if cmds.len() == 0 {
        Seq::empty()
    } else {
        let rest = load_ids(cmds.drop_last());
        match cmds.last() {
            PartitionCommand::InternalLoad { entity_id, .. } => rest.push(entity_id),
            _ => rest,
        }
    }
}

/// The entities the writes of `cmds` name.
pub open spec fn batch_touched(cmds: Seq<PartitionCommand>) -> Set<usize> {
    Set::new(
        |e: usize|
            exists|j: int|
                0 <= j < cmds.len() && (#[trigger] cmds[j] matches PartitionCommand::Write(w) && touched_by(w.view()).contains(e)),
    )
}

/// The entities the commands of a write-ahead log name.
pub open spec fn replay_touched(bytes: Seq<u8>) -> Set<usize> {
    Set::new(
        |e: usize|
            exists|i: int|
                0 <= i < decoded(wal_records(bytes, 0)).len() && touched_by(#[trigger] decoded(wal_records(bytes, 0))[i]).contains(e),
    )
}

/// `w` is one of the writes of `cmds`.
pub open spec fn written_in(cmds: Seq<PartitionCommand>, w: WriteCommand) -> bool {
    exists|j: int| 0 <= j < cmds.len() && cmds[j] == PartitionCommand::Write(w)
}

/// Whether `c` asks the writer to stop.
pub fn is_shutdown(c: &PartitionCommand) -> (b: bool)
    ensures
        b == (*c is Shutdown),
{
    match c {
        PartitionCommand::Shutdown => true,
        _ => false,
    }
}

/// The most commands the writer takes after the first one of a batch.
pub const MAX_GATHER: usize = 1000;

/// Whether the writer takes one more command into the batch it is
/// gathering: fewer than [`MAX_GATHER`] were taken after the first, and the
/// last one taken does not ask it to stop.
pub fn keep_gathering(gathered: usize, last: &PartitionCommand) -> (b: bool)
    ensures
        b == (gathered < MAX_GATHER && !(*last is Shutdown)),
{
    gathered < MAX_GATHER && !is_shutdown(last)
}

/// The write commands among `cmds`, in order.
pub open spec fn writes_in(cmds: Seq<PartitionCommand>) -> Seq<WriteCommand>
    decreases cmds.len(),
{
    if cmds.len() == 0 {
        Seq::empty()
    } else {
        match cmds.last() {
            PartitionCommand::Write(w) => writes_in(cmds.drop_last()).push(w),
            _ => writes_in(cmds.drop_last()),
        }
    }
}

/// The writes of `cmds`, in order.
pub fn write_commands_of(cmds: &Vec<PartitionCommand>) -> (r: Vec<&WriteCommand>)
    requires
        forall|i: int| 0 <= i < cmds@.len() ==> command_wf(#[trigger] cmds@[i]),
    ensures
        r@.len() == writes_in(cmds@).len(),
        forall|i: int| 0 <= i < r@.len() ==> *(#[trigger] r@[i]) == writes_in(cmds@)[i],
        forall|i: int| 0 <= i < r@.len() ==> (#[trigger] r@[i]).wf(),
        r@.len() <= cmds@.len(),
        forall|i: int| 0 <= i < r@.len() ==> written_in(cmds@, *#[trigger] r@[i]),
{
    let mut r: Vec<&WriteCommand> = Vec::new();
    let mut i: usize = 0;
    proof {
        assert(cmds@.take(0) =~= Seq::<PartitionCommand>::empty());
    }
    while i < cmds.len()
        invariant
            forall|t: int| 0 <= t < cmds@.len() ==> command_wf(#[trigger] cmds@[t]),
            i <= cmds@.len(),
            r@.len() <= i,
            r@.len() == writes_in(cmds@.take(i as int)).len(),
            forall|t: int| 0 <= t < r@.len() ==> *(#[trigger] r@[t]) == writes_in(cmds@.take(i as int))[t],
            forall|t: int| 0 <= t < r@.len() ==> (#[trigger] r@[t]).wf(),
            forall|t: int| 0 <= t < r@.len() ==> written_in(cmds@, *#[trigger] r@[t]),
        decreases cmds@.len() - i,
    {
        proof {
            assert(cmds@.take(i + 1).drop_last() =~= cmds@.take(i as int));
            assert(cmds@.take(i + 1).last() == cmds@[i as int]);
        }
        match &cmds[i] {
            PartitionCommand::Write(w) => {
                proof {
                    assert(command_wf(cmds@[i as int]));
                }
                let ghost before = r@;
                r.push(w);
                proof {
                    assert forall|t: int| 0 <= t < r@.len() implies written_in(cmds@, *#[trigger] r@[t]) by {
                        if t < before.len() {
                            assert(r@[t] == before[t]);
                        } else {
                            assert(cmds@[i as int] == PartitionCommand::Write(*r@[t]));
                        }
                    }
                    assert forall|t: int| 0 <= t < r@.len() implies *(#[trigger] r@[t]) == writes_in(
                        cmds@.take(i + 1),
                    )[t] by {
                        if t < before.len() {
                            assert(r@[t] == before[t]);
                        }
                    }
                }
            },
            _ => {},
        }
        i = i + 1;
    }
    proof {
        assert(cmds@.take(i as int) =~= cmds@);
    }
    r
}

/// One partition's writable state: its columns, the pointer of each entity
/// held in memory, its entity log, the Bloom filter of its stored ids with
/// the count of insertions since it was rebuilt, and the retired snapshots
/// awaiting reclamation.
pub struct Partition<F: FileSystem, const N: usize> {
    pub columns: Columns<N>,
    pub shared_pointers: AHashMap<usize, MultiVectorPointer>,
    pub storage: Storage<F>,
    pub bloom_filter: SimpleBloom<N>,
    pub bloom_count: usize,
    pub bloom_bits: usize,
    pub qsbr: QsbrManager,
    pub partition_id: u32,
}

/// Twice `b`, or `usize::MAX` when that does not fit.
pub open spec fn doubled(b: usize) -> usize {
    if b <= usize::MAX / 2 {
        (b * 2) as usize
    } else {
        usize::MAX
    }
}

/// Bits assumed for the Bloom filter's occupancy check when a partition
/// starts.
pub const INITIAL_BLOOM_BITS: usize = 1024 * 1024;

/// What a write does to one entity: the attribute maps it now has, or none
/// for a delete.
pub type EntityWrite = (usize, Option<AttrsView>);

/// The attributes a fast insert writes.
pub open spec fn fast_attrs(epoch: u32, record_type: u32, payload: Seq<u8>) -> AttrsView {
    (
        Map::<Seq<char>, Seq<char>>::empty(),
        Map::<Seq<char>, u32>::empty().insert("epoch"@, epoch).insert("type"@, record_type),
        Map::<Seq<char>, Seq<u8>>::empty().insert("payload"@, payload),
    )
}

/// The entity writes of a command, in the order it makes them.
pub open spec fn writes_of(c: CommandView) -> Seq<EntityWrite> {
    match c {
        CommandView::Insert { entity_id, attrs } => seq![(entity_id, Some(attrs))],
        CommandView::InsertFast { entity_id, epoch, record_type, payload } => seq![
            (entity_id, Some(fast_attrs(epoch, record_type, payload))),
        ],
        CommandView::Delete { entity_id } => seq![(entity_id, None)],
        CommandView::BatchInsert(items) => items.map_values(|it: (usize, AttrsView)| (it.0, Some(it.1))),
    }
}

/// The entity writes of the write commands of a batch, in order.
pub open spec fn batch_writes(cmds: Seq<PartitionCommand>) -> Seq<EntityWrite>
    decreases cmds.len(),
{
    if cmds.len() == 0 {
        Seq::empty()
    } else {
        batch_writes(cmds.drop_last()) + match cmds.last() {
            PartitionCommand::Write(w) => writes_of(w.view()),
            _ => Seq::empty(),
        }
    }
}

/// The entity writes of a run of commands, in order.
pub open spec fn log_writes(cs: Seq<CommandView>) -> Seq<EntityWrite>
    decreases cs.len(),
{
    if cs.len() == 0 {
        Seq::empty()
    } else {
        log_writes(cs.drop_last()) + writes_of(cs.last())
    }
}

/// The entity writes of the commands of a write-ahead log, in order.
pub open spec fn replay_writes(bytes: Seq<u8>) -> Seq<EntityWrite> {
    log_writes(decoded(wal_records(bytes, 0)))
}

/// The writes of each step of a run, one step after the other.
pub open spec fn flat_writes(parts: Seq<Seq<EntityWrite>>) -> Seq<EntityWrite>
    decreases parts.len(),
{
    if parts.len() == 0 {
        Seq::empty()
    } else {
        flat_writes(parts.drop_last()) + parts.last()
    }
}

/// The entity writes a load request makes: the entities it brings into
/// memory from one block of the log, each with the attributes read.
pub open spec fn promotions(ws: Seq<EntityWrite>) -> bool {
    &&& ws.len() <= 64
    &&& forall|j: int| 0 <= j < ws.len() ==> (#[trigger] ws[j]).1 is Some
}

/// `ws` are the entity writes of command `c`: those of a write command, the
/// promotions of a load request, none for a shutdown.
pub open spec fn step_effect(c: PartitionCommand, ws: Seq<EntityWrite>) -> bool {
    match c {
        PartitionCommand::Write(w) => ws == writes_of(w.view()),
        PartitionCommand::InternalLoad { .. } => promotions(ws),
        PartitionCommand::Shutdown => ws.len() == 0,
    }
}

/// `parts` are the entity writes of the commands of `cmds`, step by step.
pub open spec fn effects_of(cmds: Seq<PartitionCommand>, parts: Seq<Seq<EntityWrite>>) -> bool {
    &&& parts.len() == cmds.len()
    &&& forall|k: int| 0 <= k < cmds.len() ==> #[trigger] step_effect(cmds[k], parts[k])
}

/// The number of string (`which == 0`), integer (`1`) or blob (`2`)
/// attributes of `a`.
pub open spec fn count_of(a: AttrsView, which: int) -> nat {
    if which == 0 {
        a.0.len()
    } else if which == 1 {
        a.1.len()
    } else {
        a.2.len()
    }
}

/// The number of attributes of kind `which` that writes give.
pub open spec fn ws_sum(ws: Seq<EntityWrite>, which: int) -> nat
    decreases ws.len(),
{
    if ws.len() == 0 {
        0
    } else {
        ws_sum(ws.drop_last(), which) + match ws.last().1 {
            Some(a) => count_of(a, which),
            None => 0,
        }
    }
}

/// Sums add up over concatenation.
pub proof fn lemma_ws_sum_concat(a: Seq<EntityWrite>, b: Seq<EntityWrite>, which: int)
    ensures
        ws_sum(a + b, which) == ws_sum(a, which) + ws_sum(b, which),
    decreases b.len(),
{
    if b.len() == 0 {
        assert(a + b =~= a);
    } else {
        lemma_ws_sum_concat(a, b.drop_last(), which);
        assert((a + b).drop_last() =~= a + b.drop_last());
    }
}

/// A prefix of writes sums to no more than the whole.
pub proof fn lemma_ws_sum_prefix(ws: Seq<EntityWrite>, which: int, m: int)
    requires
        0 <= m <= ws.len(),
    ensures
        ws_sum(ws.take(m), which) <= ws_sum(ws, which),
{
    lemma_ws_sum_concat(ws.take(m), ws.skip(m), which);
    assert(ws.take(m) + ws.skip(m) =~= ws);
}

/// Write `i` is the last of `ws` to its entity.
pub open spec fn last_write(ws: Seq<EntityWrite>, i: int) -> bool {
    forall|j: int| i < j < ws.len() ==> (#[trigger] ws[j]).0 != ws[i].0
}

/// The entities that `ws` writes.
pub open spec fn written_ids(ws: Seq<EntityWrite>) -> Set<usize> {
    Set::new(|e: usize| exists|j: int| 0 <= j < ws.len() && (#[trigger] ws[j]).0 == e)
}

/// State `p` reads back write `w`: the entity is in memory, and its
/// attributes are the ones written, or, after a delete, none.
pub open spec fn write_holds<F: FileSystem, const N: usize>(p: Partition<F, N>, w: EntityWrite) -> bool {
    &&& p.shared_pointers@.contains_key(w.0)
    &&& match w.1 {
        Some(a) => attrs_written(p.columns, p.shared_pointers@[w.0], a.0, a.1, a.2),
        None => p.shared_pointers@[w.0].attribute_indices@ == Map::<Seq<char>, usize>::empty(),
    }
}

/// State `p` reads back the last write of `ws` to each entity.
pub open spec fn writes_hold<F: FileSystem, const N: usize>(p: Partition<F, N>, ws: Seq<EntityWrite>) -> bool {
    forall|i: int| 0 <= i < ws.len() && #[trigger] last_write(ws, i) ==> write_holds(p, ws[i])
}

/// State `b` grew from state `a` by no more than writes `ws` can make it.
pub open spec fn grown_by<F: FileSystem, const N: usize>(a: Partition<F, N>, b: Partition<F, N>, ws: Seq<EntityWrite>) -> bool {
    &&& b.shared_pointers@.len() <= a.shared_pointers@.len() + ws.len()
    &&& b.storage.next_disk_index@.len() <= a.storage.next_disk_index@.len() + ws.len()
    &&& b.columns.str_cols@.len() <= a.columns.str_cols@.len() + ws_sum(ws, 0)
    &&& b.columns.int_cols@.len() <= a.columns.int_cols@.len() + ws_sum(ws, 1)
    &&& b.columns.blob_cols@.len() <= a.columns.blob_cols@.len() + ws_sum(ws, 2)
}

/// Every column of `a` grew into the column of the same name and type of
/// `b`.
pub open spec fn columns_grow<const N: usize>(a: Columns<N>, b: Columns<N>) -> bool {
    &&& cols_grow(a.str_cols@, b.str_cols@)
    &&& cols_grow(a.int_cols@, b.int_cols@)
    &&& cols_grow(a.blob_cols@, b.blob_cols@)
}

/// The entities a write names.
pub open spec fn touched_by(c: CommandView) -> Set<usize> {
    match c {
        CommandView::Insert { entity_id, .. } => set![entity_id],
        CommandView::Delete { entity_id } => set![entity_id],
        CommandView::InsertFast { entity_id, .. } => set![entity_id],
        CommandView::BatchInsert(items) => Set::new(|e: usize| exists|j: int| 0 <= j < items.len() && (#[trigger] items[j]).0 == e),
    }
}

/// State `b` follows state `a` by writes to the entities of `touched`: the
/// columns only grew, and every other entity in memory kept its pointer.
pub open spec fn write_step<F: FileSystem, const N: usize>(a: Partition<F, N>, b: Partition<F, N>, touched: Set<usize>) -> bool {
    &&& columns_grow(a.columns, b.columns)
    &&& forall|e: usize|
        #[trigger] a.shared_pointers@.contains_key(e) && !touched.contains(e) ==> b.shared_pointers@.contains_key(e)
            && b.shared_pointers@[e] == a.shared_pointers@[e]
}

/// Steps compose.
pub proof fn lemma_write_step_trans<F: FileSystem, const N: usize>(
    a: Partition<F, N>,
    b: Partition<F, N>,
    c: Partition<F, N>,
    t1: Set<usize>,
    t2: Set<usize>,
)
    requires
        write_step(a, b, t1),
        write_step(b, c, t2),
    ensures
        write_step(a, c, t1.union(t2)),
{
    lemma_cols_grow_trans(a.columns.str_cols@, b.columns.str_cols@, c.columns.str_cols@);
    lemma_cols_grow_trans(a.columns.int_cols@, b.columns.int_cols@, c.columns.int_cols@);
    lemma_cols_grow_trans(a.columns.blob_cols@, b.columns.blob_cols@, c.columns.blob_cols@);
}

/// A step that touches nothing more is also a step for a larger set.
pub proof fn lemma_write_step_widen<F: FileSystem, const N: usize>(
    a: Partition<F, N>,
    b: Partition<F, N>,
    t1: Set<usize>,
    t2: Set<usize>,
)
    requires
        write_step(a, b, t1),
        t1.subset_of(t2),
    ensures
        write_step(a, b, t2),
{
}

/// The writes of two runs of commands are the writes of the first, then
/// those of the second.
proof fn lemma_batch_writes_concat(a: Seq<PartitionCommand>, b: Seq<PartitionCommand>)
    ensures
        batch_writes(a + b) == batch_writes(a) + batch_writes(b),
    decreases b.len(),
{
    if b.len() == 0 {
        assert(a + b =~= a);
        assert(batch_writes(a) + batch_writes(b) =~= batch_writes(a));
    } else {
        lemma_batch_writes_concat(a, b.drop_last());
        assert((a + b).drop_last() =~= a + b.drop_last());
        assert((a + b).last() == b.last());
        assert(batch_writes(a + b) =~= batch_writes(a) + batch_writes(b));
    }
}

/// The writes of two runs of commands are the writes of the first, then
/// those of the second.
proof fn lemma_log_writes_concat(a: Seq<CommandView>, b: Seq<CommandView>)
    ensures
        log_writes(a + b) == log_writes(a) + log_writes(b),
    decreases b.len(),
{
    if b.len() == 0 {
        assert(a + b =~= a);
        assert(log_writes(a) + log_writes(b) =~= log_writes(a));
    } else {
        lemma_log_writes_concat(a, b.drop_last());
        assert((a + b).drop_last() =~= a + b.drop_last());
        assert((a + b).last() == b.last());
        assert(log_writes(a + b) =~= log_writes(a) + log_writes(b));
    }
}

/// Every entity a command names is written by one of its writes.
proof fn lemma_touched_written(c: CommandView)
    ensures
        touched_by(c).subset_of(written_ids(writes_of(c))),
{
    let ws = writes_of(c);
    assert forall|e: usize| touched_by(c).contains(e) implies written_ids(ws).contains(e) by {
        match c {
            CommandView::BatchInsert(items) => {
                let j = choose|j: int| 0 <= j < items.len() && (#[trigger] items[j]).0 == e;
                assert(ws[j].0 == e);
            },
            _ => {
                assert(ws[0].0 == e);
            },
        }
    }
}

/// The entities two runs of writes name are those the whole names.
proof fn lemma_written_ids_concat(a: Seq<EntityWrite>, b: Seq<EntityWrite>)
    ensures
        written_ids(a).subset_of(written_ids(a + b)),
        written_ids(b).subset_of(written_ids(a + b)),
{
    assert forall|e: usize| written_ids(a).contains(e) implies written_ids(a + b).contains(e) by {
        let j = choose|j: int| 0 <= j < a.len() && (#[trigger] a[j]).0 == e;
        assert((a + b)[j] == a[j]);
    }
    assert forall|e: usize| written_ids(b).contains(e) implies written_ids(a + b).contains(e) by {
        let j = choose|j: int| 0 <= j < b.len() && (#[trigger] b[j]).0 == e;
        assert((a + b)[a.len() + j] == b[j]);
    }
}

/// A step after a run: the whole run touches what either part touches.
proof fn lemma_step_append<F: FileSystem, const N: usize>(
    a: Partition<F, N>,
    b: Partition<F, N>,
    c: Partition<F, N>,
    ws: Seq<EntityWrite>,
    more: Seq<EntityWrite>,
    t: Set<usize>,
)
    requires
        write_step(a, b, written_ids(ws)),
        write_step(b, c, t),
        t.subset_of(written_ids(more)),
        grown_by(a, b, ws),
        grown_by(b, c, more),
    ensures
        write_step(a, c, written_ids(ws + more)),
        grown_by(a, c, ws + more),
{
    lemma_written_ids_concat(ws, more);
    lemma_write_step_widen(a, b, written_ids(ws), written_ids(ws + more));
    lemma_write_step_widen(b, c, t, written_ids(ws + more));
    lemma_write_step_trans(a, b, c, written_ids(ws + more), written_ids(ws + more));
    assert(written_ids(ws + more).union(written_ids(ws + more)) =~= written_ids(ws + more));
    lemma_grown_by_append(a, b, c, ws, more);
}

/// A write that a later step does not touch still reads back.
proof fn lemma_write_holds_kept<F: FileSystem, const N: usize>(
    a: Partition<F, N>,
    b: Partition<F, N>,
    t: Set<usize>,
    w: EntityWrite,
)
    requires
        write_step(a, b, t),
        !t.contains(w.0),
        write_holds(a, w),
    ensures
        write_holds(b, w),
{
    match w.1 {
        Some(x) => lemma_untouched_kept(a, b, t, w.0, x.0, x.1, x.2),
        None => {},
    }
}

/// Writes that hold before a step, then the step's own writes: the last
/// write to each entity holds after the step.
proof fn lemma_writes_hold_append<F: FileSystem, const N: usize>(
    a: Partition<F, N>,
    b: Partition<F, N>,
    t: Set<usize>,
    ws: Seq<EntityWrite>,
    more: Seq<EntityWrite>,
)
    requires
        writes_hold(a, ws),
        writes_hold(b, more),
        write_step(a, b, t),
        t.subset_of(written_ids(more)),
    ensures
        writes_hold(b, ws + more),
{
    let all = ws + more;
    assert forall|i: int| 0 <= i < all.len() && #[trigger] last_write(all, i) implies write_holds(b, all[i]) by {
        if i < ws.len() {
            assert(all[i] == ws[i]);
            assert(last_write(ws, i)) by {
                assert forall|j: int| i < j < ws.len() implies (#[trigger] ws[j]).0 != ws[i].0 by {
                    assert(all[j] == ws[j]);
                }
            }
            assert(!written_ids(more).contains(ws[i].0)) by {
                if written_ids(more).contains(ws[i].0) {
                    let j = choose|j: int| 0 <= j < more.len() && (#[trigger] more[j]).0 == ws[i].0;
                    assert(all[ws.len() + j] == more[j]);
                }
            }
            lemma_write_holds_kept(a, b, t, ws[i]);
        } else {
            let m = i - ws.len();
            assert(all[i] == more[m]);
            assert(last_write(more, m)) by {
                assert forall|j: int| m < j < more.len() implies (#[trigger] more[j]).0 != more[m].0 by {
                    assert(all[ws.len() + j] == more[j]);
                }
            }
        }
    }
}

/// Growth bounds add up over consecutive steps.
proof fn lemma_grown_by_append<F: FileSystem, const N: usize>(
    a: Partition<F, N>,
    b: Partition<F, N>,
    c: Partition<F, N>,
    ws: Seq<EntityWrite>,
    more: Seq<EntityWrite>,
)
    requires
        grown_by(a, b, ws),
        grown_by(b, c, more),
    ensures
        grown_by(a, c, ws + more),
{
    lemma_ws_sum_concat(ws, more, 0);
    lemma_ws_sum_concat(ws, more, 1);
    lemma_ws_sum_concat(ws, more, 2);
}

/// The effects of one more command extend the effects of those before it.
proof fn lemma_effects_push(all: Seq<PartitionCommand>, k: int, parts: Seq<Seq<EntityWrite>>, more: Seq<EntityWrite>)
    requires
        0 <= k < all.len(),
        effects_of(all.take(k), parts),
        step_effect(all[k], more),
    ensures
        effects_of(all.take(k + 1), parts.push(more)),
        flat_writes(parts.push(more)) == flat_writes(parts) + more,
{
    assert(parts.push(more).drop_last() =~= parts);
    assert forall|j: int| 0 <= j < k + 1 implies #[trigger] step_effect(all.take(k + 1)[j], parts.push(more)[j]) by {
        if j < k {
            assert(all.take(k + 1)[j] == all.take(k)[j]);
            assert(step_effect(all.take(k)[j], parts[j]));
        }
    }
}

impl<F: FileSystem, const N: usize> Partition<F, N> {
    /// One more step of a run: what the run touched, how far it grew the
    /// maps and which of its writes read back carry over to the longer run.
    proof fn lemma_effect_step(
        start: Self,
        pre: Self,
        post: Self,
        ws: Seq<EntityWrite>,
        more: Seq<EntityWrite>,
        t: Set<usize>,
    )
        requires
            write_step(start, pre, written_ids(ws)),
            grown_by(start, pre, ws),
            start.writes_room(ws) ==> writes_hold(pre, ws),
            write_step(pre, post, t),
            t.subset_of(written_ids(more)),
            grown_by(pre, post, more),
            pre.writes_room(more) ==> writes_hold(post, more),
        ensures
            write_step(start, post, written_ids(ws + more)),
            grown_by(start, post, ws + more),
            start.writes_room(ws + more) ==> writes_hold(post, ws + more),
    {
        lemma_step_append(start, pre, post, ws, more, t);
        if start.writes_room(ws + more) {
            Self::lemma_room_prefix(start, ws, more);
            assert(ws + more + Seq::<EntityWrite>::empty() =~= ws + more);
            Self::lemma_room_after(start, pre, ws, more, Seq::<EntityWrite>::empty());
            lemma_writes_hold_append(pre, post, t, ws, more);
        }
    }

    /// Room for a run of writes is room for its first part.
    proof fn lemma_room_prefix(start: Self, ws: Seq<EntityWrite>, more: Seq<EntityWrite>)
        requires
            start.writes_room(ws + more),
        ensures
            start.writes_room(ws),
    {
        lemma_ws_sum_concat(ws, more, 0);
        lemma_ws_sum_concat(ws, more, 1);
        lemma_ws_sum_concat(ws, more, 2);
        assert forall|i: int| 0 <= i < ws.len() && (#[trigger] ws[i]).1 is Some implies count_of(ws[i].1->0, 0)
            + count_of(ws[i].1->0, 1) + count_of(ws[i].1->0, 2) < MAX_ENTRIES by {
            assert((ws + more)[i] == ws[i]);
        }
    }
}

impl<F: FileSystem, const N: usize> Partition<F, N> {
    /// Room for a run of writes leaves room, after its first part, for the
    /// writes that come next.
    proof fn lemma_room_after(start: Self, pre: Self, ws: Seq<EntityWrite>, more: Seq<EntityWrite>, rest: Seq<EntityWrite>)
        requires
            start.writes_room(ws + more + rest),
            grown_by(start, pre, ws),
        ensures
            pre.writes_room(more),
    {
        let all = ws + more + rest;
        lemma_ws_sum_concat(ws, more, 0);
        lemma_ws_sum_concat(ws, more, 1);
        lemma_ws_sum_concat(ws, more, 2);
        lemma_ws_sum_concat(ws + more, rest, 0);
        lemma_ws_sum_concat(ws + more, rest, 1);
        lemma_ws_sum_concat(ws + more, rest, 2);
        assert forall|i: int| 0 <= i < more.len() && (#[trigger] more[i]).1 is Some implies count_of(more[i].1->0, 0)
            + count_of(more[i].1->0, 1) + count_of(more[i].1->0, 2) < MAX_ENTRIES by {
            assert(all[ws.len() + i] == more[i]);
        }
    }
}

impl<F: FileSystem, const N: usize> Partition<F, N> {
    /// The columns, pointers, log and filter are well formed.
    pub open spec fn wf(&self) -> bool {
        &&& self.columns.wf()
        &&& self.shared_pointers.wf()
        &&& forall|id: usize| #[trigger] self.shared_pointers@.contains_key(id) ==> self.shared_pointers@[id].attribute_indices.wf()
            && self.shared_pointers@[id].attribute_indices@.len() < MAX_ENTRIES
            && self.shared_pointers@[id].entity_id == id
        &&& self.storage.wf()
        &&& self.bloom_filter.wf()
        &&& no_waitlists(self.columns.str_cols@)
        &&& no_waitlists(self.columns.int_cols@)
        &&& no_waitlists(self.columns.blob_cols@)
    }

    /// A partition over the entity log in `storage_path`, with no column and
    /// no entity in memory.
    pub fn new(storage_path: String, fs: F, partition_id: u32) -> (p: Self)
        requires
            N > 0,
            N * 64 <= usize::MAX,
        ensures
            p.wf(),
            p.shared_pointers@ == Map::<usize, MultiVectorPointer>::empty(),
            p.bloom_count == 0,
            p.bloom_bits == INITIAL_BLOOM_BITS,
            p.partition_id == partition_id,
            p.storage.base_path@ == storage_path@,
    {
        Partition {
            columns: Columns::new(),
            shared_pointers: AHashMap::new(),
            storage: Storage::new(storage_path, fs),
            bloom_filter: SimpleBloom::new(),
            bloom_count: 0,
            bloom_bits: INITIAL_BLOOM_BITS,
            qsbr: QsbrManager::new(),
            partition_id,
        }
    }

    /// Rebuilds the Bloom filter from the ids of the log's index, doubling
    /// the bits assumed for the occupancy check.
    pub fn rebuild_bloom_filter(&mut self)
        requires
            old(self).wf(),
        ensures
            final(self).wf(),
            final(self).columns == old(self).columns,
            final(self).shared_pointers == old(self).shared_pointers,
            final(self).storage == old(self).storage,
            final(self).bloom_bits == doubled(old(self).bloom_bits),
            final(self).bloom_count == old(self).storage.next_disk_index@.len(),
            forall|id: usize| #[trigger] old(self).storage.next_disk_index@.contains_key(id) ==> probes_in(
                final(self).bloom_filter.view(),
                final(self).bloom_filter.item_hash(id),
                N * 64,
            ),
    {
        self.bloom_bits = if self.bloom_bits <= usize::MAX / 2 {
            self.bloom_bits * 2
        } else {
            usize::MAX
        };
        proof {
            self.bloom_filter.lemma_size();
        }
        let mut fresh: SimpleBloom<N> = SimpleBloom::new();
        let keys = self.storage.next_disk_index.keys();
        let mut i: usize = 0;
        while i < keys.len()
            invariant
                fresh.wf(),
                self.storage.next_disk_index.wf(),
                i <= keys@.len(),
                forall|j: int| 0 <= j < i ==> probes_in(fresh.view(), fresh.item_hash(*keys@[j]), N * 64),
            decreases keys@.len() - i,
        {
            let ghost before = fresh.view();
            fresh.insert(*keys[i]);
            proof {
                lemma_inserted_reported(before, fresh.item_hash(*keys@[i as int]), N * 64);
                assert forall|j: int| 0 <= j < i + 1 implies probes_in(fresh.view(), fresh.item_hash(*keys@[j]), N * 64) by {
                    if j < i {
                        lemma_probes_stay(before, fresh.view(), fresh.item_hash(*keys@[j]), N * 64);
                    }
                }
            }
            i = i + 1;
        }
        proof {
            assert forall|id: usize| #[trigger] self.storage.next_disk_index@.contains_key(id) implies probes_in(
                fresh.view(),
                fresh.item_hash(id),
                N * 64,
            ) by {
                let j = choose|j: int| 0 <= j < keys@.len() && (#[trigger] keys@[j])@ == id;
            }
            self.storage.next_disk_index.lemma_finite();
            keys_count(self.storage.next_disk_index@, keys@);
        }
        self.bloom_filter = fresh;
        self.bloom_count = keys.len();
    }

    /// Adds `id` to the Bloom filter, and rebuilds the filter once more
    /// than seven tenths of the assumed bits were inserted.
    pub fn update_bloom(&mut self, id: usize)
        requires
            old(self).wf(),
        ensures
            final(self).wf(),
            final(self).columns == old(self).columns,
            final(self).shared_pointers == old(self).shared_pointers,
            final(self).storage == old(self).storage,
            old(self).bloom_count.saturating_add(1) > old(self).bloom_bits / 10 * 7 + old(self).bloom_bits % 10 * 7 / 10
                ==> final(self).bloom_count == old(self).storage.next_disk_index@.len(),
            old(self).bloom_count.saturating_add(1) <= old(self).bloom_bits / 10 * 7 + old(self).bloom_bits % 10 * 7 / 10
                ==> final(self).bloom_count == old(self).bloom_count + 1 && probes_in(
                final(self).bloom_filter.view(),
                final(self).bloom_filter.item_hash(id),
                N * 64,
            ),
    {
        let ghost before = self.bloom_filter.view();
        self.bloom_filter.insert(id);
        proof {
            lemma_inserted_reported(before, self.bloom_filter.item_hash(id), N * 64);
        }
        self.bloom_count = self.bloom_count.saturating_add(1);
        if self.bloom_count > self.bloom_bits / 10 * 7 + self.bloom_bits % 10 * 7 / 10 {
            self.rebuild_bloom_filter();
        }
    }

    /// Writes each attribute value of an entity to a row of its column and
    /// points the entity at those rows, replacing its previous pointer.
    fn place_entity(
        &mut self,
        entity_id: usize,
        attributes: Attributes<String>,
        attributes_int: Attributes<u32>,
        attributes_blob: Attributes<Vec<u8>>,
    )
        requires
            old(self).wf(),
            attributes.wf(),
            attributes_int.wf(),
            attributes_blob.wf(),
            old(self).shared_pointers@.len() < MAX_ENTRIES,
            old(self).columns.str_cols@.len() + attributes.view().len() < MAX_ENTRIES,
            old(self).columns.int_cols@.len() + attributes_int.view().len() < MAX_ENTRIES,
            old(self).columns.blob_cols@.len() + attributes_blob.view().len() < MAX_ENTRIES,
            attributes.view().len() + attributes_int.view().len() + attributes_blob.view().len() < MAX_ENTRIES,
        ensures
            final(self).wf(),
            final(self).storage == old(self).storage,
            final(self).bloom_filter == old(self).bloom_filter,
            final(self).bloom_count == old(self).bloom_count,
            final(self).shared_pointers@.dom() == old(self).shared_pointers@.dom().insert(entity_id),
            forall|k: usize|
                k != entity_id && #[trigger] old(self).shared_pointers@.contains_key(k) ==> final(self).shared_pointers@[k]
                    == old(self).shared_pointers@[k],
            final(self).shared_pointers@[entity_id].entity_id == entity_id,
            final(self).shared_pointers@[entity_id].attribute_indices@.len() <= attributes.view().len()
                + attributes_int.view().len() + attributes_blob.view().len(),
            attrs_written(
                final(self).columns,
                final(self).shared_pointers@[entity_id],
                attributes.view(),
                attributes_int.view(),
                attributes_blob.view(),
            ),
            columns_grow(old(self).columns, final(self).columns),
            final(self).columns.str_cols@.len() <= old(self).columns.str_cols@.len() + attributes.view().len(),
            final(self).columns.int_cols@.len() <= old(self).columns.int_cols@.len() + attributes_int.view().len(),
            final(self).columns.blob_cols@.len() <= old(self).columns.blob_cols@.len() + attributes_blob.view().len(),
    {
        let ghost a1 = attributes.view();
        let ghost a2 = attributes_int.view();
        let ghost a3 = attributes_blob.view();
        let e1 = attributes.into_entries();
        let e2 = attributes_int.into_entries();
        let e3 = attributes_blob.into_entries();
        let ghost e1s = e1@;
        let ghost e2s = e2@;
        let ghost e3s = e3@;
        let mut idx: AHashMap<String, usize> = AHashMap::new();
        let ghost idx0 = idx@;
        insert_all(&mut self.columns.str_cols, e1, &mut idx);
        let ghost idx1 = idx@;
        let ghost cols1 = self.columns;
        insert_all(&mut self.columns.int_cols, e2, &mut idx);
        let ghost idx2 = idx@;
        let ghost cols2 = self.columns;
        insert_all(&mut self.columns.blob_cols, e3, &mut idx);
        let ghost idx3 = idx@;
        proof {
            // A name of the attribute maps is a key of their listings, and back.
            assert forall|k: Seq<char>| key_from(e3s, 0, k) <==> #[trigger] a3.contains_key(k) by {
                if key_from(e3s, 0, k) {
                    let j = choose|j: int| 0 <= j < e3s.len() && (#[trigger] e3s[j]).0@ == k;
                }
            }
            assert forall|k: Seq<char>| key_from(e2s, 0, k) <==> #[trigger] a2.contains_key(k) by {
                if key_from(e2s, 0, k) {
                    let j = choose|j: int| 0 <= j < e2s.len() && (#[trigger] e2s[j]).0@ == k;
                }
            }
            assert forall|k: Seq<char>| key_from(e1s, 0, k) <==> #[trigger] a1.contains_key(k) by {
                if key_from(e1s, 0, k) {
                    let j = choose|j: int| 0 <= j < e1s.len() && (#[trigger] e1s[j]).0@ == k;
                }
            }
            assert forall|k: Seq<char>| #[trigger] a3.contains_key(k) implies written_blob(self.columns.blob_cols@, idx3, k, a3[k]) by {
                let j = choose|j: int| 0 <= j < e3s.len() && (#[trigger] e3s[j]).0@ == k;
                assert(entry_written(self.columns.blob_cols@, idx3, idx2, e3s[j].0@, e3s[j].1));
            }
            assert forall|k: Seq<char>| #[trigger] a2.contains_key(k) && !a3.contains_key(k) implies written_int(
                self.columns.int_cols@,
                idx3,
                k,
                a2[k],
            ) by {
                let j = choose|j: int| 0 <= j < e2s.len() && (#[trigger] e2s[j]).0@ == k;
                assert(entry_written(cols2.int_cols@, idx2, idx1, e2s[j].0@, e2s[j].1));
                assert(!key_from(e3s, 0, k));
            }
            assert forall|k: Seq<char>| #[trigger] a1.contains_key(k) && !a2.contains_key(k) && !a3.contains_key(k) implies written_str(
                self.columns.str_cols@,
                idx3,
                k,
                a1[k],
            ) by {
                let j = choose|j: int| 0 <= j < e1s.len() && (#[trigger] e1s[j]).0@ == k;
                assert(entry_written(cols1.str_cols@, idx1, idx0, e1s[j].0@, e1s[j].1));
                assert(!key_from(e3s, 0, k));
                assert(!key_from(e2s, 0, k));
            }
            assert forall|k: Seq<char>| #[trigger] idx3.contains_key(k) implies a1.contains_key(k) || a2.contains_key(k)
                || a3.contains_key(k) by {
                if !key_from(e1s, 0, k) && !key_from(e2s, 0, k) && !key_from(e3s, 0, k) {
                    assert(!idx0.contains_key(k));
                }
            }
            self.shared_pointers.lemma_finite();
        }
        let p = MultiVectorPointer { entity_id, attribute_indices: idx };
        self.shared_pointers.insert(entity_id, p);
        proof {
            assert(self.shared_pointers@.dom() =~= old(self).shared_pointers@.dom().insert(entity_id));
        }
    }

    /// Inserts an entity: adds its id to the Bloom filter, appends it to the
    /// log, writes each attribute value to a row of its column and points
    /// the entity at those rows, replacing its previous pointer.
    #[verifier::rlimit(40)]
    pub fn process_insert(
        &mut self,
        entity_id: usize,
        attributes: Attributes<String>,
        attributes_int: Attributes<u32>,
        attributes_blob: Attributes<Vec<u8>>,
    )
        requires
            old(self).wf(),
            attributes.wf(),
            attributes_int.wf(),
            attributes_blob.wf(),
            old(self).shared_pointers@.len() < MAX_ENTRIES,
            old(self).storage.next_disk_index@.len() < MAX_ENTRIES,
            old(self).columns.str_cols@.len() + attributes.view().len() < MAX_ENTRIES,
            old(self).columns.int_cols@.len() + attributes_int.view().len() < MAX_ENTRIES,
            old(self).columns.blob_cols@.len() + attributes_blob.view().len() < MAX_ENTRIES,
            attributes.view().len() + attributes_int.view().len() + attributes_blob.view().len() < MAX_ENTRIES,
        ensures
            final(self).wf(),
            final(self).shared_pointers@.dom() == old(self).shared_pointers@.dom().insert(entity_id),
            forall|k: usize|
                k != entity_id && #[trigger] old(self).shared_pointers@.contains_key(k) ==> final(self).shared_pointers@[k]
                    == old(self).shared_pointers@[k],
            final(self).shared_pointers@[entity_id].entity_id == entity_id,
            attrs_written(
                final(self).columns,
                final(self).shared_pointers@[entity_id],
                attributes.view(),
                attributes_int.view(),
                attributes_blob.view(),
            ),
            write_step(*old(self), *final(self), set![entity_id]),
            final(self).shared_pointers@.len() <= old(self).shared_pointers@.len() + 1,
            final(self).storage.next_disk_index@.len() <= old(self).storage.next_disk_index@.len() + 1,
            final(self).columns.str_cols@.len() <= old(self).columns.str_cols@.len() + attributes.view().len(),
            final(self).columns.int_cols@.len() <= old(self).columns.int_cols@.len() + attributes_int.view().len(),
            final(self).columns.blob_cols@.len() <= old(self).columns.blob_cols@.len() + attributes_blob.view().len(),
            old(self).bloom_count.saturating_add(1) <= old(self).bloom_bits / 10 * 7 + old(self).bloom_bits % 10 * 7 / 10
                ==> probes_in(final(self).bloom_filter.view(), final(self).bloom_filter.item_hash(entity_id), N * 64),
            final(self).storage.base_path == old(self).storage.base_path,
            final(self).storage.disk_index == old(self).storage.disk_index,
            (final(self).storage.next_disk_index == old(self).storage.next_disk_index && final(self).storage.log
                == old(self).storage.log && final(self).storage.current_offset == old(self).storage.current_offset)
                || exists|bytes: Seq<u8>|
                {
                    &&& encodes_entity(
                        entity_id,
                        (attributes.view(), attributes_int.view(), attributes_blob.view()),
                        bytes,
                    )
                    &&& final(self).storage.next_disk_index@ == old(self).storage.next_disk_index@.insert(
                        entity_id,
                        (old(self).storage.current_offset, bytes.len() as u32),
                    )
                    &&& final(self).storage.log@ == old(self).storage.log@ + frame(bytes)
                    &&& final(self).storage.disk_index_dirty
                },
            exists|bytes: Seq<u8>|
                {
                    &&& encodes_entity(
                        entity_id,
                        (attributes.view(), attributes_int.view(), attributes_blob.view()),
                        bytes,
                    )
                    &&& final(self).storage.appended@ == old(self).storage.appended@.push(frame(bytes))
                    &&& final(self).storage.log@ == old(self).storage.log@ + frame(bytes) && old(self).storage.log@.len()
                        + 4 + bytes.len() < 0x1_0000_0000_0000_0000 && bytes.len() <= u32::MAX && attrs_encodable(
                        (attributes.view(), attributes_int.view(), attributes_blob.view()),
                    ) ==> holds_entity(
                        final(self).storage.log@,
                        final(self).storage.next_disk_index@,
                        entity_id,
                        (entity_id, (attributes.view(), attributes_int.view(), attributes_blob.view())),
                    )
                },
    {
        proof {
            old(self).shared_pointers.lemma_finite();
            old(self).storage.next_disk_index.lemma_finite();
        }
        self.update_bloom(entity_id);
        let data = EntityData { entity_id, attributes, attributes_int, attributes_blob };
        let ghost idx0 = self.storage.next_disk_index@;
        let ghost st0 = self.storage;
        let ghost dv = data.view();
        let wr = self.storage.write_entity(&data);
        let ghost b1 = choose|bytes: Seq<u8>|
            {
                &&& encodes_entity(dv.0, dv.1, bytes)
                &&& self.storage.appended@ == st0.appended@.push(frame(bytes))
                &&& wr is Ok ==> self.storage.log@ == st0.log@ + frame(bytes)
                &&& wr is Ok && st0.log@.len() + 4 + bytes.len() < 0x1_0000_0000_0000_0000 && bytes.len() <= u32::MAX
                    && attrs_encodable(dv.1) ==> holds_entity(self.storage.log@, self.storage.next_disk_index@, dv.0, dv)
            };
        proof {
            if wr is Err {
                crate::codec::lemma_le32_len(b1.len() as u32);
                assert(frame(b1).len() >= 4);
                assert((st0.log@ + frame(b1)).len() > self.storage.log@.len());
            }
        }
        proof {
            if self.storage.next_disk_index@ != idx0 {
                let k = data.entity_id;
                let v = self.storage.next_disk_index@[k];
                assert(self.storage.next_disk_index@.dom() =~= idx0.dom().insert(k));
            } else {
                assert(self.storage.next_disk_index@.dom() =~= idx0.dom());
            }
        }
        let EntityData { entity_id: _, attributes, attributes_int, attributes_blob } = data;
        self.place_entity(entity_id, attributes, attributes_int, attributes_blob);
        proof {
            assert(self.storage.appended@ == old(self).storage.appended@.push(frame(b1)));
        }
    }

    /// Whether an entity with these attributes fits every map of the
    /// partition.
    fn fits(&self, a1: &Attributes<String>, a2: &Attributes<u32>, a3: &Attributes<Vec<u8>>) -> (b: bool)
        requires
            self.wf(),
            a1.wf(),
            a2.wf(),
            a3.wf(),
        ensures
            b == self.room_for(a1.view().len(), a2.view().len(), a3.view().len()),
    {
        let n1 = a1.len();
        let n2 = a2.len();
        let n3 = a3.len();
        let lim = MAX_ENTRIES;
        self.shared_pointers.len() < lim && self.storage.next_disk_index.len() < lim && n1 < lim && n2 < lim && n3 < lim
            && self.columns.str_cols.len() < lim - n1 && self.columns.int_cols.len() < lim - n2
            && self.columns.blob_cols.len() < lim - n3 && n1 + n2 < lim && n3 < lim - (n1 + n2)
    }

    /// Brings an entity read from disk into memory: adds its id to the
    /// Bloom filter, writes its attributes to the columns and points it at
    /// them. Gives a copy of its new pointer.
    fn process_promote(&mut self, data: EntityData) -> (r: MultiVectorPointer)
        requires
            old(self).wf(),
            data.wf(),
            old(self).shared_pointers@.len() < MAX_ENTRIES,
            old(self).columns.str_cols@.len() + data.attributes.view().len() < MAX_ENTRIES,
            old(self).columns.int_cols@.len() + data.attributes_int.view().len() < MAX_ENTRIES,
            old(self).columns.blob_cols@.len() + data.attributes_blob.view().len() < MAX_ENTRIES,
            data.attributes.view().len() + data.attributes_int.view().len() + data.attributes_blob.view().len()
                < MAX_ENTRIES,
        ensures
            final(self).wf(),
            final(self).shared_pointers@.dom() == old(self).shared_pointers@.dom().insert(data.entity_id),
            forall|k: usize|
                k != data.entity_id && #[trigger] old(self).shared_pointers@.contains_key(k) ==> final(self).shared_pointers@[k]
                    == old(self).shared_pointers@[k],
            r.entity_id == data.entity_id,
            r.attribute_indices@ == final(self).shared_pointers@[data.entity_id].attribute_indices@,
            attrs_written(
                final(self).columns,
                final(self).shared_pointers@[data.entity_id],
                data.attributes.view(),
                data.attributes_int.view(),
                data.attributes_blob.view(),
            ),
            write_step(*old(self), *final(self), set![data.entity_id]),
            grown_by(*old(self), *final(self), seq![(data.entity_id, Some(data.view().1))]),
            writes_hold(*final(self), seq![(data.entity_id, Some(data.view().1))]),
    {
        let ghost w: EntityWrite = (data.entity_id, Some(data.view().1));
        proof {
            let ws = seq![w];
            assert(ws.drop_last() =~= Seq::<EntityWrite>::empty());
            assert(ws_sum(ws.drop_last(), 0) == 0);
            assert(ws_sum(ws.drop_last(), 1) == 0);
            assert(ws_sum(ws.drop_last(), 2) == 0);
            assert(ws.last() == w);
            assert(ws_sum(ws, 0) == data.attributes.view().len());
            assert(ws_sum(ws, 1) == data.attributes_int.view().len());
            assert(ws_sum(ws, 2) == data.attributes_blob.view().len());
            old(self).shared_pointers.lemma_finite();
        }
        let id = data.entity_id;
        self.update_bloom(id);
        let EntityData { entity_id: _, attributes, attributes_int, attributes_blob } = data;
        self.place_entity(id, attributes, attributes_int, attributes_blob);
        proof {
            assert(last_write(seq![w], 0));
            assert(self.shared_pointers@.dom() =~= old(self).shared_pointers@.dom().insert(id));
        }
        let p = self.shared_pointers.get(&id).unwrap();
        copy_pointer(p)
    }

    /// Whether an entity with attribute maps of these sizes fits every map
    /// of the partition.
    pub open spec fn room_for(&self, n1: nat, n2: nat, n3: nat) -> bool {
        &&& self.shared_pointers@.len() < MAX_ENTRIES
        &&& self.storage.next_disk_index@.len() < MAX_ENTRIES
        &&& self.columns.str_cols@.len() + n1 < MAX_ENTRIES
        &&& self.columns.int_cols@.len() + n2 < MAX_ENTRIES
        &&& self.columns.blob_cols@.len() + n3 < MAX_ENTRIES
        &&& n1 + n2 + n3 < MAX_ENTRIES
    }

    /// The partition's maps have room for every write of `ws`, one after
    /// the other.
    pub open spec fn writes_room(&self, ws: Seq<EntityWrite>) -> bool {
        &&& self.shared_pointers@.len() + ws.len() < MAX_ENTRIES
        &&& self.storage.next_disk_index@.len() + ws.len() < MAX_ENTRIES
        &&& self.columns.str_cols@.len() + ws_sum(ws, 0) < MAX_ENTRIES
        &&& self.columns.int_cols@.len() + ws_sum(ws, 1) < MAX_ENTRIES
        &&& self.columns.blob_cols@.len() + ws_sum(ws, 2) < MAX_ENTRIES
        &&& forall|i: int|
            0 <= i < ws.len() && (#[trigger] ws[i]).1 is Some ==> count_of(ws[i].1->0, 0) + count_of(ws[i].1->0, 1)
                + count_of(ws[i].1->0, 2) < MAX_ENTRIES
    }

    /// Inserts the items of a batch in order; an item that does not fit the
    /// partition's maps is skipped.
    fn apply_batch_insert(&mut self, items: Vec<(usize, Attributes<String>, Attributes<u32>, Attributes<Vec<u8>>)>)
        requires
            old(self).wf(),
            forall|i: int| 0 <= i < items@.len() ==> item_wf(#[trigger] items@[i]),
        ensures
            final(self).wf(),
            write_step(*old(self), *final(self), touched_by(CommandView::BatchInsert(items@.map_values(|it| item_view(it))))),
            grown_by(*old(self), *final(self), writes_of(CommandView::BatchInsert(items@.map_values(|it| item_view(it))))),
            old(self).writes_room(writes_of(CommandView::BatchInsert(items@.map_values(|it| item_view(it)))))
                ==> writes_hold(*final(self), writes_of(CommandView::BatchInsert(items@.map_values(|it| item_view(it))))),
    {
        let ghost all = items@;
        let ghost vs = all.map_values(|it| item_view(it));
        let ghost ws = writes_of(CommandView::BatchInsert(vs));
        let ghost t = touched_by(CommandView::BatchInsert(vs));
        let ghost start = *self;
        let ghost room = start.writes_room(ws);
        let mut items = items;
        let ghost mut k: int = 0;
        proof {
            assert(items@ =~= all.skip(0));
            assert(ws.len() == all.len());
            assert forall|i: int| 0 <= i < all.len() implies t.contains((#[trigger] all[i]).0) by {
                assert(vs[i].0 == all[i].0);
            }
            assert(ws.take(0) =~= Seq::<EntityWrite>::empty());
        }
        while items.len() > 0
            invariant
                self.wf(),
                0 <= k <= all.len(),
                ws.len() == all.len(),
                vs == all.map_values(|it| item_view(it)),
                ws == writes_of(CommandView::BatchInsert(vs)),
                items@ == all.skip(k),
                forall|i: int| 0 <= i < all.len() ==> item_wf(#[trigger] all[i]),
                forall|i: int| 0 <= i < all.len() ==> t.contains((#[trigger] all[i]).0),
                write_step(start, *self, t),
                room == start.writes_room(ws),
                grown_by(start, *self, ws.take(k)),
                room ==> writes_hold(*self, ws.take(k)),
            decreases all.len() - k,
        {
            let ghost before = items@;
            let it = items.remove(0);
            let ghost wk = ws.take(k);
            let ghost wk1 = ws.take(k + 1);
            proof {
                assert(before[0] == all[k]);
                assert(it == all[k]);
                assert(items@ =~= all.skip(k + 1));
                assert(item_wf(all[k]));
                assert(vs[k] == item_view(all[k]));
                assert(ws[k] == (vs[k].0, Some(vs[k].1)));
                assert(wk1.drop_last() =~= wk);
                assert(wk1.last() == ws[k]);
                lemma_ws_sum_prefix(ws, 0, k + 1);
                lemma_ws_sum_prefix(ws, 1, k + 1);
                lemma_ws_sum_prefix(ws, 2, k + 1);
            }
            let ghost pre = *self;
            let (entity_id, attributes, attributes_int, attributes_blob) = it;
            if self.fits(&attributes, &attributes_int, &attributes_blob) {
                self.process_insert(entity_id, attributes, attributes_int, attributes_blob);
                proof {
                    lemma_write_step_widen(pre, *self, set![entity_id], t);
                    lemma_write_step_trans(start, pre, *self, t, t);
                    assert(t.union(t) =~= t);
                    if room {
                        assert forall|i: int| 0 <= i < wk1.len() && #[trigger] last_write(wk1, i) implies write_holds(
                            *self,
                            wk1[i],
                        ) by {
                            if i < k {
                                assert(wk1[k] == ws[k]);
                                assert(wk1[i] == wk[i]);
                                assert(wk[i].0 != entity_id);
                                assert(last_write(wk, i)) by {
                                    assert forall|j: int| i < j < wk.len() implies (#[trigger] wk[j]).0 != wk[i].0 by {
                                        assert(wk1[j] == wk[j]);
                                    }
                                }
                                assert(write_holds(pre, wk[i]));
                                let a = wk[i].1->0;
                                lemma_untouched_kept(pre, *self, set![entity_id], wk[i].0, a.0, a.1, a.2);
                            } else {
                                assert(wk1[i] == ws[k]);
                            }
                        }
                    }
                }
            } else {
                proof {
                    if room {
                        assert(pre.room_for(vs[k].1.0.len(), vs[k].1.1.len(), vs[k].1.2.len())) by {
                            assert(ws[k].1 is Some);
                            assert(count_of(ws[k].1->0, 0) + count_of(ws[k].1->0, 1) + count_of(ws[k].1->0, 2) < MAX_ENTRIES);
                        }
                        assert(false);
                    }
                }
            }
            proof {
                k = k + 1;
            }
        }
        proof {
            assert(k == all.len());
            assert(ws.take(k) =~= ws);
        }
    }

    /// Applies one write. An insert, plain or fast, is skipped only when an
    /// entity would not fit the partition's maps, which no real memory
    /// allows; a delete points the entity at no attribute.
    pub fn apply_write(&mut self, cmd: WriteCommand)
        requires
            old(self).wf(),
            cmd.wf(),
        ensures
            final(self).wf(),
            match cmd {
                WriteCommand::Insert { entity_id, attributes, attributes_int, attributes_blob } => old(self).room_for(
                    attributes.view().len(),
                    attributes_int.view().len(),
                    attributes_blob.view().len(),
                ) ==> {
                    &&& final(self).shared_pointers@.dom() == old(self).shared_pointers@.dom().insert(entity_id)
                    &&& final(self).shared_pointers@[entity_id].entity_id == entity_id
                    &&& attrs_written(
                        final(self).columns,
                        final(self).shared_pointers@[entity_id],
                        attributes.view(),
                        attributes_int.view(),
                        attributes_blob.view(),
                    )
                },
                WriteCommand::Delete { entity_id } => old(self).shared_pointers@.len() < MAX_ENTRIES ==> {
                    &&& final(self).shared_pointers@.dom() == old(self).shared_pointers@.dom().insert(entity_id)
                    &&& final(self).shared_pointers@[entity_id].entity_id == entity_id
                    &&& final(self).shared_pointers@[entity_id].attribute_indices@ == Map::<Seq<char>, usize>::empty()
                    &&& final(self).columns == old(self).columns
                },
                WriteCommand::InsertFast { entity_id, epoch, record_type, payload } => old(self).room_for(0, 2, 1) ==> {
                    &&& final(self).shared_pointers@.dom() == old(self).shared_pointers@.dom().insert(entity_id)
                    &&& final(self).shared_pointers@[entity_id].entity_id == entity_id
                    &&& attrs_written(
                        final(self).columns,
                        final(self).shared_pointers@[entity_id],
                        Map::empty(),
                        Map::empty().insert("epoch"@, epoch).insert("type"@, record_type),
                        Map::empty().insert("payload"@, payload@),
                    )
                },
                WriteCommand::BatchInsert(_) => true,
            },
            write_step(*old(self), *final(self), touched_by(cmd.view())),
            grown_by(*old(self), *final(self), writes_of(cmd.view())),
            old(self).writes_room(writes_of(cmd.view())) ==> writes_hold(*final(self), writes_of(cmd.view())),
    {
        let ghost t = touched_by(cmd.view());
        let ghost ws = writes_of(cmd.view());
        let ghost start = *self;
        proof {
            if ws.len() == 1 {
                assert(ws.drop_last() =~= Seq::<EntityWrite>::empty());
                assert(last_write(ws, 0));
            }
        }
        match cmd {
            WriteCommand::Insert { entity_id, attributes, attributes_int, attributes_blob } => {
                proof {
                    if start.writes_room(ws) {
                        assert(ws[0].1 is Some);
                    }
                }
                if self.fits(&attributes, &attributes_int, &attributes_blob) {
                    self.process_insert(entity_id, attributes, attributes_int, attributes_blob);
                }
            },
            WriteCommand::BatchInsert(items) => {
                self.apply_batch_insert(items);
            },
            WriteCommand::Delete { entity_id } => {
                if self.shared_pointers.len() < MAX_ENTRIES {
                    proof {
                        self.shared_pointers.lemma_finite();
                    }
                    self.shared_pointers.insert(entity_id, MultiVectorPointer::new(entity_id));
                    proof {
                        assert(self.shared_pointers@.dom() =~= old(self).shared_pointers@.dom().insert(entity_id));
                    }
                }
            },
            WriteCommand::InsertFast { entity_id, epoch, record_type, payload } => {
                let attributes: Attributes<String> = Attributes::new();
                let mut attributes_int: Attributes<u32> = Attributes::new();
                let mut attributes_blob: Attributes<Vec<u8>> = Attributes::new();
                attributes_int.insert("epoch".to_string(), epoch);
                attributes_int.insert("type".to_string(), record_type);
                let body: Vec<u8> = (*payload).clone();
                proof {
                    assert(body@ =~= payload@);
                }
                attributes_blob.insert("payload".to_string(), body);
                proof {
                    assert(attributes.view().len() == 0);
                    assert(attributes_int.view().dom() =~= set!["epoch"@, "type"@]);
                    assert(attributes_blob.view().dom() =~= set!["payload"@]);
                }
                if self.fits(&attributes, &attributes_int, &attributes_blob) {
                    self.process_insert(entity_id, attributes, attributes_int, attributes_blob);
                }
            },
        }
    }

    /// Loads entity `id` for a reader: its pointer when it is in memory;
    /// else the block of ids around it is read from the log and every
    /// entity read is brought into memory, and the pointer of `id` is given
    /// if it was among them.
    pub fn load_entity(&mut self, id: usize) -> (r: Option<MultiVectorPointer>)
        requires
            old(self).wf(),
        ensures
            final(self).wf(),
            r matches Some(p) ==> p.entity_id == id && final(self).shared_pointers@.contains_key(id)
                && p.attribute_indices@ == final(self).shared_pointers@[id].attribute_indices@,
            old(self).shared_pointers@.contains_key(id) ==> r is Some && *final(self) == *old(self),
            exists|pw: Seq<EntityWrite>|
                {
                    &&& promotions(pw)
                    &&& write_step(*old(self), *final(self), written_ids(pw))
                    &&& grown_by(*old(self), *final(self), pw)
                    &&& writes_hold(*final(self), pw)
                },
    {
        let ghost start = *self;
        let ghost mut pw: Seq<EntityWrite> = Seq::empty();
        proof {
            assert(written_ids(pw) =~= Set::<usize>::empty());
            lemma_cols_grow_refl(start.columns.str_cols@);
            lemma_cols_grow_refl(start.columns.int_cols@);
            lemma_cols_grow_refl(start.columns.blob_cols@);
            assert(write_step(start, start, written_ids(pw)));
            assert(grown_by(start, start, pw));
            assert(promotions(pw) && writes_hold(start, pw));
        }
        match self.shared_pointers.get(&id) {
            Some(p) => {
                return Some(copy_pointer(p));
            },
            None => {},
        }
        if id > usize::MAX - 64 {
            return None;
        }
        let mut block = self.storage.read_block(id, 32);
        let mut target: Option<MultiVectorPointer> = None;
        while block.len() > 0
            invariant
                self.wf(),
                pw.len() + block@.len() <= 64,
                forall|j: int| 0 <= j < pw.len() ==> (#[trigger] pw[j]).1 is Some,
                write_step(start, *self, written_ids(pw)),
                grown_by(start, *self, pw),
                writes_hold(*self, pw),
                forall|j: int| 0 <= j < block@.len() ==> crate::storage::read_back(#[trigger] block@[j]),
                target matches Some(p) ==> p.entity_id == id && self.shared_pointers@.contains_key(id)
                    && p.attribute_indices@ == self.shared_pointers@[id].attribute_indices@,
            decreases block@.len(),
        {
            let ghost before = block@;
            let data = block.remove(0);
            proof {
                assert(data == before[0]);
                assert(crate::storage::read_back(before[0]));
                assert forall|j: int| 0 <= j < block@.len() implies crate::storage::read_back(#[trigger] block@[j]) by {
                    assert(block@[j] == before[j + 1]);
                    assert(crate::storage::read_back(before[j + 1]));
                }
            }
            if self.fits(&data.attributes, &data.attributes_int, &data.attributes_blob) {
                let did = data.entity_id;
                let ghost pre = self.shared_pointers@;
                let ghost pstate = *self;
                let ghost more: Seq<EntityWrite> = seq![(did, Some(data.view().1))];
                let p = self.process_promote(data);
                proof {
                    assert(more[0].0 == did);
                    assert(set![did].subset_of(written_ids(more)));
                    lemma_step_append(start, pstate, *self, pw, more, set![did]);
                    lemma_writes_hold_append(pstate, *self, set![did], pw, more);
                    pw = pw + more;
                }
                if p.entity_id == id {
                    target = Some(p);
                } else {
                    proof {
                        if target is Some {
                            assert(self.shared_pointers@[id] == pre[id]) by {
                                assert(did != id);
                            }
                        }
                    }
                }
            }
        }
        proof {
            assert(promotions(pw));
            assert(write_step(start, *self, written_ids(pw)) && grown_by(start, *self, pw) && writes_hold(*self, pw));
        }
        target
    }

    /// Applies a batch of commands in order, then publishes the log's index.
    /// Every write is applied, whatever else the batch holds; a load request
    /// brings the entities of one block of the log into memory, which acts
    /// as a write of what was read for each of them. The last of these
    /// writes to each entity is the one read back. Gives, for each load
    /// request in order, the channel to answer on and the answer: the
    /// pointer of the entity asked for, if it could be found in memory or
    /// on disk.
    pub fn apply_batch_commands(&mut self, commands: Vec<PartitionCommand>) -> (r: Vec<
        (Box<dyn ResponseSender<Option<MultiVectorPointer>>>, Option<MultiVectorPointer>),
    >)
        requires
            old(self).wf(),
            forall|i: int| 0 <= i < commands@.len() ==> command_wf(#[trigger] commands@[i]),
        ensures
            final(self).wf(),
            !final(self).storage.disk_index_dirty,
            r@.len() == load_ids(commands@).len(),
            forall|i: int| 0 <= i < r@.len() ==> reply_for(#[trigger] r@[i], load_ids(commands@)[i]),
            load_ids(commands@).len() == 0 ==> write_step(*old(self), *final(self), batch_touched(commands@)),
            load_ids(commands@).len() == 0 ==> grown_by(*old(self), *final(self), batch_writes(commands@)),
            load_ids(commands@).len() == 0 && old(self).writes_room(batch_writes(commands@)) ==> writes_hold(
                *final(self),
                batch_writes(commands@),
            ),
            exists|parts: Seq<Seq<EntityWrite>>|
                {
                    &&& effects_of(commands@, parts)
                    &&& write_step(*old(self), *final(self), written_ids(flat_writes(parts)))
                    &&& grown_by(*old(self), *final(self), flat_writes(parts))
                    &&& old(self).writes_room(flat_writes(parts)) ==> writes_hold(*final(self), flat_writes(parts))
                },
    {
        let ghost all = commands@;
        let ghost start = *self;
        let ghost room = start.writes_room(batch_writes(all));
        let ghost mut parts: Seq<Seq<EntityWrite>> = Seq::empty();
        proof {
            assert(all.take(0) =~= Seq::<PartitionCommand>::empty());
            assert(batch_writes(all.take(0)) =~= Seq::<EntityWrite>::empty());
            assert(flat_writes(parts) =~= Seq::<EntityWrite>::empty());
            assert(written_ids(flat_writes(parts)) =~= Set::<usize>::empty());
            lemma_cols_grow_refl(start.columns.str_cols@);
            lemma_cols_grow_refl(start.columns.int_cols@);
            lemma_cols_grow_refl(start.columns.blob_cols@);
        }
        let mut commands = commands;
        let mut replies: Vec<(Box<dyn ResponseSender<Option<MultiVectorPointer>>>, Option<MultiVectorPointer>)> = Vec::new();
        let ghost mut k: int = 0;
        while commands.len() > 0
            invariant
                self.wf(),
                0 <= k <= all.len(),
                commands@ == all.skip(k),
                forall|i: int| 0 <= i < all.len() ==> command_wf(#[trigger] all[i]),
                replies@.len() == load_ids(all.take(k)).len(),
                forall|i: int| 0 <= i < replies@.len() ==> reply_for(#[trigger] replies@[i], load_ids(all.take(k))[i]),
                load_ids(all.take(k)).len() == 0 ==> write_step(start, *self, batch_touched(all)),
                load_ids(all.take(k)).len() == 0 ==> grown_by(start, *self, batch_writes(all.take(k))),
                room == start.writes_room(batch_writes(all)),
                load_ids(all.take(k)).len() == 0 && room ==> writes_hold(*self, batch_writes(all.take(k))),
                effects_of(all.take(k), parts),
                write_step(start, *self, written_ids(flat_writes(parts))),
                grown_by(start, *self, flat_writes(parts)),
                start.writes_room(flat_writes(parts)) ==> writes_hold(*self, flat_writes(parts)),
            decreases commands@.len(),
        {
            let cmd = commands.remove(0);
            proof {
                assert(cmd == all[k]);
                assert(all.take(k + 1).drop_last() =~= all.take(k));
                assert(all.take(k + 1).last() == all[k]);
                assert(commands@ =~= all.skip(k + 1));
                assert(command_wf(all[k]));
                lemma_batch_writes_concat(all.take(k + 1), all.skip(k + 1));
                assert(all.take(k + 1) + all.skip(k + 1) =~= all);
            }
            match cmd {
                PartitionCommand::Write(w) => {
                    let ghost pre = *self;
                    let ghost wv = w.view();
                    let ghost wk = batch_writes(all.take(k));
                    let ghost more = writes_of(wv);
                    proof {
                        assert(batch_writes(all.take(k + 1)) == wk + more);
                        if load_ids(all.take(k)).len() == 0 && room {
                            Self::lemma_room_after(start, pre, wk, more, batch_writes(all.skip(k + 1)));
                        }
                    }
                    self.apply_write(w);
                    proof {
                        lemma_touched_written(wv);
                        Self::lemma_effect_step(start, pre, *self, flat_writes(parts), more, touched_by(wv));
                        lemma_effects_push(all, k, parts, more);
                        parts = parts.push(more);
                        assert(load_ids(all.take(k + 1)) == load_ids(all.take(k)));
                        if load_ids(all.take(k)).len() == 0 {
                            lemma_grown_by_append(start, pre, *self, wk, more);
                            if room {
                                lemma_touched_written(wv);
                                lemma_writes_hold_append(pre, *self, touched_by(wv), wk, more);
                            }
                            let t = batch_touched(all);
                            assert(touched_by(wv).subset_of(t)) by {
                                assert forall|e: usize| touched_by(wv).contains(e) implies t.contains(e) by {
                                    assert(all[k] matches PartitionCommand::Write(w2) && touched_by(w2.view()).contains(e));
                                }
                            }
                            lemma_write_step_widen(pre, *self, touched_by(wv), t);
                            lemma_write_step_trans(start, pre, *self, t, t);
                            assert(t.union(t) =~= t);
                        }
                    }
                },
                PartitionCommand::InternalLoad { entity_id, response_tx } => {
                    let ghost pre = *self;
                    let target = self.load_entity(entity_id);
                    proof {
                        let pw = choose|pw: Seq<EntityWrite>|
                            {
                                &&& promotions(pw)
                                &&& write_step(pre, *self, written_ids(pw))
                                &&& grown_by(pre, *self, pw)
                                &&& writes_hold(*self, pw)
                            };
                        Self::lemma_effect_step(start, pre, *self, flat_writes(parts), pw, written_ids(pw));
                        lemma_effects_push(all, k, parts, pw);
                        parts = parts.push(pw);
                    }
                    let ghost before = replies@;
                    let pair = (response_tx, target);
                    let ghost pv = pair;
                    replies.push(pair);
                    proof {
                        assert(replies@ =~= before.push(pv));
                        assert(reply_for(pv, entity_id));
                        assert(load_ids(all.take(k + 1)) == load_ids(all.take(k)).push(entity_id));
                        assert forall|i: int| 0 <= i < replies@.len() implies reply_for(
                            #[trigger] replies@[i],
                            load_ids(all.take(k + 1))[i],
                        ) by {
                            if i < before.len() {
                                assert(replies@[i] == before[i]);
                                assert(reply_for(before[i], load_ids(all.take(k))[i]));
                            }
                        }
                    }
                },
                PartitionCommand::Shutdown => {
                    proof {
                        let none = Seq::<EntityWrite>::empty();
                        assert(written_ids(none) =~= Set::<usize>::empty());
                        lemma_cols_grow_refl(self.columns.str_cols@);
                        lemma_cols_grow_refl(self.columns.int_cols@);
                        lemma_cols_grow_refl(self.columns.blob_cols@);
                        Self::lemma_effect_step(start, *self, *self, flat_writes(parts), none, written_ids(none));
                        lemma_effects_push(all, k, parts, none);
                        parts = parts.push(none);
                        assert(load_ids(all.take(k + 1)) == load_ids(all.take(k)));
                        assert(batch_writes(all.take(k + 1)) =~= batch_writes(all.take(k)));
                    }
                },
            }
            proof {
                k = k + 1;
            }
        }
        proof {
            assert(all.take(k) =~= all);
        }
        match self.storage.swap_disk_index() {
            Some(old_index) => self.qsbr.defer_free(old_index),
            None => {},
        }
        replies
    }

    /// Replays a write-ahead log: each command it holds is applied as a
    /// batch of its own, in order, so that the last write the log holds for
    /// each entity is the one read back.
    pub fn replay_wal(&mut self, bytes: &[u8])
        requires
            old(self).wf(),
            bytes@.len() <= MAX_INPUT,
        ensures
            final(self).wf(),
            write_step(*old(self), *final(self), replay_touched(bytes@)),
            grown_by(*old(self), *final(self), replay_writes(bytes@)),
            old(self).writes_room(replay_writes(bytes@)) ==> writes_hold(*final(self), replay_writes(bytes@)),
    {
        let ghost t = replay_touched(bytes@);
        let ghost cvs = decoded(wal_records(bytes@, 0));
        let ghost ws = replay_writes(bytes@);
        let ghost start = *self;
        let ghost room = start.writes_room(ws);
        let mut cmds = replay_commands(bytes);
        let ghost mut k: int = 0;
        proof {
            assert forall|i: int| 0 <= i < cmds@.len() implies touched_by((#[trigger] cmds@[i]).view()).subset_of(t) by {
                assert(cmds@[i].view() == cvs[i]);
            }
            assert(cvs.take(0) =~= Seq::<CommandView>::empty());
            assert(log_writes(cvs.take(0)) =~= Seq::<EntityWrite>::empty());
        }
        while cmds.len() > 0
            invariant
                self.wf(),
                0 <= k <= cvs.len(),
                cmds@.len() == cvs.len() - k,
                forall|i: int| 0 <= i < cmds@.len() ==> (#[trigger] cmds@[i]).wf() && cmds@[i].view() == cvs[k + i],
                forall|i: int| 0 <= i < cmds@.len() ==> touched_by((#[trigger] cmds@[i]).view()).subset_of(t),
                write_step(start, *self, t),
                ws == log_writes(cvs),
                room == start.writes_room(ws),
                grown_by(start, *self, log_writes(cvs.take(k))),
                room ==> writes_hold(*self, log_writes(cvs.take(k))),
            decreases cmds@.len(),
        {
            let ghost before = cmds@;
            let c = cmds.remove(0);
            proof {
                assert(c == before[0]);
                assert(before[0].wf());
                assert forall|i: int| 0 <= i < cmds@.len() implies (#[trigger] cmds@[i]).wf() && cmds@[i].view() == cvs[k
                    + 1 + i] by {
                    assert(cmds@[i] == before[i + 1]);
                    assert(before[i + 1].wf());
                }
            }
            let ghost cv = c.view();
            let ghost wk = log_writes(cvs.take(k));
            let ghost more = writes_of(cv);
            proof {
                assert(touched_by(before[0].view()).subset_of(t));
                assert forall|i: int| 0 <= i < cmds@.len() implies touched_by((#[trigger] cmds@[i]).view()).subset_of(t) by {
                    assert(cmds@[i] == before[i + 1]);
                    assert(touched_by(before[i + 1].view()).subset_of(t));
                }
                assert(cv == cvs[k]);
                assert(cvs.take(k + 1).drop_last() =~= cvs.take(k));
                assert(log_writes(cvs.take(k + 1)) == wk + more);
                lemma_log_writes_concat(cvs.take(k + 1), cvs.skip(k + 1));
                assert(cvs.take(k + 1) + cvs.skip(k + 1) =~= cvs);
            }
            let mut batch: Vec<PartitionCommand> = Vec::new();
            batch.push(PartitionCommand::Write(c));
            let ghost bs = batch@;
            let ghost pre = *self;
            proof {
                assert(command_wf(batch@[0]));
                assert(bs.drop_last() =~= Seq::<PartitionCommand>::empty());
                assert(load_ids(bs.drop_last()).len() == 0);
                assert(bs.last() is Write);
                assert(load_ids(bs).len() == 0);
                assert(batch_writes(bs.drop_last()) =~= Seq::<EntityWrite>::empty());
                assert(batch_writes(bs) =~= more);
                if room {
                    Self::lemma_room_after(start, pre, wk, more, log_writes(cvs.skip(k + 1)));
                }
            }
            let _ = self.apply_batch_commands(batch);
            proof {
                assert(batch_touched(bs).subset_of(touched_by(cv))) by {
                    assert forall|e: usize| batch_touched(bs).contains(e) implies touched_by(cv).contains(e) by {
                        let j = choose|j: int| 0 <= j < bs.len() && (#[trigger] bs[j] matches PartitionCommand::Write(w) && touched_by(w.view()).contains(e));
                        assert(j == 0);
                    }
                }
                lemma_write_step_widen(pre, *self, batch_touched(bs), t);
                lemma_write_step_trans(start, pre, *self, t, t);
                assert(t.union(t) =~= t);
                lemma_grown_by_append(start, pre, *self, wk, more);
                if room {
                    lemma_touched_written(cv);
                    lemma_writes_hold_append(pre, *self, batch_touched(bs), wk, more);
                }
                k = k + 1;
            }
        }
        proof {
            assert(cvs.take(k) =~= cvs);
        }
    }

    /// One round of the writer's loop on a received batch: logs its writes
    /// to the write-ahead log in one append, applies the batch and flushes
    /// the entity log. Gives the answers to the batch's load requests.
    pub fn commit_batch<W: WalProvider>(&mut self, wal: &W, commands: Vec<PartitionCommand>) -> (r: Vec<
        (Box<dyn ResponseSender<Option<MultiVectorPointer>>>, Option<MultiVectorPointer>),
    >)
        requires
            old(self).wf(),
            forall|i: int| 0 <= i < commands@.len() ==> command_wf(#[trigger] commands@[i]),
        ensures
            final(self).wf(),
            r@.len() == load_ids(commands@).len(),
            forall|i: int| 0 <= i < r@.len() ==> reply_for(#[trigger] r@[i], load_ids(commands@)[i]),
            load_ids(commands@).len() == 0 ==> write_step(*old(self), *final(self), batch_touched(commands@)),
            load_ids(commands@).len() == 0 ==> grown_by(*old(self), *final(self), batch_writes(commands@)),
            load_ids(commands@).len() == 0 && old(self).writes_room(batch_writes(commands@)) ==> writes_hold(
                *final(self),
                batch_writes(commands@),
            ),
            exists|parts: Seq<Seq<EntityWrite>>|
                {
                    &&& effects_of(commands@, parts)
                    &&& write_step(*old(self), *final(self), written_ids(flat_writes(parts)))
                    &&& grown_by(*old(self), *final(self), flat_writes(parts))
                    &&& old(self).writes_room(flat_writes(parts)) ==> writes_hold(*final(self), flat_writes(parts))
                },
    {
        {
            let writes = write_commands_of(&commands);
            if writes.len() > 0 {
                let _ = wal.append_batch(writes.as_slice());
            }
        }
        let r = self.apply_batch_commands(commands);
        let _ = self.storage.flush();
        r
    }
}

/// A map has as many keys as a duplicate-free listing of its keys.
proof fn keys_count(m: Map<usize, (u64, u32)>, ks: Seq<&usize>)
    requires
        m.dom().finite(),
        forall|j: int| 0 <= j < ks.len() ==> m.contains_key(*#[trigger] ks[j]),
        forall|k: usize| #[trigger] m.contains_key(k) ==> exists|j: int| 0 <= j < ks.len() && (#[trigger] ks[j])@ == k,
        forall|j1: int, j2: int| 0 <= j1 < j2 < ks.len() ==> (#[trigger] ks[j1])@ != (#[trigger] ks[j2])@,
    ensures
        m.len() == ks.len(),
    decreases ks.len(),
{
    if ks.len() == 0 {
        assert(m.dom() =~= Set::<usize>::empty());
    } else {
        let last = *ks.last();
        let rest = ks.drop_last();
        let m0 = m.remove(last);
        assert forall|k: usize| #[trigger] m0.contains_key(k) implies exists|j: int| 0 <= j < rest.len() && (#[trigger] rest[j])@ == k by {
            let j = choose|j: int| 0 <= j < ks.len() && (#[trigger] ks[j])@ == k;
            assert(j != ks.len() - 1);
            assert(rest[j] == ks[j]);
        }
        assert forall|j: int| 0 <= j < rest.len() implies m0.contains_key(*#[trigger] rest[j]) by {
            assert(rest[j] == ks[j]);
            assert(ks[j]@ != ks[ks.len() - 1]@);
        }
        assert forall|j1: int, j2: int| 0 <= j1 < j2 < rest.len() implies (#[trigger] rest[j1])@ != (#[trigger] rest[j2])@ by {
            assert(rest[j1] == ks[j1]);
            assert(rest[j2] == ks[j2]);
        }
        keys_count(m0, rest);
        assert(m.contains_key(last));
        assert(m0.dom() =~= m.dom().remove(last));
    }
}

/// The columns only grow, so what was written for a pointer stays written.
pub proof fn lemma_written_grows<const N: usize>(
    a: Columns<N>,
    b: Columns<N>,
    p: MultiVectorPointer,
    a1: Map<Seq<char>, Seq<char>>,
    a2: Map<Seq<char>, u32>,
    a3: Map<Seq<char>, Seq<u8>>,
)
    requires
        columns_grow(a, b),
        attrs_written(a, p, a1, a2, a3),
    ensures
        attrs_written(b, p, a1, a2, a3),
{
    let idx = p.attribute_indices@;
    assert forall|k: Seq<char>| #[trigger] a3.contains_key(k) implies written_blob(b.blob_cols@, idx, k, a3[k]) by {
        assert(written_blob(a.blob_cols@, idx, k, a3[k]));
        assert(col_grows(a.blob_cols@[k], b.blob_cols@[k]));
        if !at_capacity(a.blob_cols@[k]) {
            assert(b.blob_cols@[k].data@.row(idx[k] as int) == a.blob_cols@[k].data@.row(idx[k] as int));
        }
    }
    assert forall|k: Seq<char>| #[trigger] a2.contains_key(k) && !a3.contains_key(k) implies written_int(
        b.int_cols@,
        idx,
        k,
        a2[k],
    ) by {
        assert(written_int(a.int_cols@, idx, k, a2[k]));
        assert(col_grows(a.int_cols@[k], b.int_cols@[k]));
        if !at_capacity(a.int_cols@[k]) {
            assert(b.int_cols@[k].data@.row(idx[k] as int) == a.int_cols@[k].data@.row(idx[k] as int));
        }
    }
    assert forall|k: Seq<char>| #[trigger] a1.contains_key(k) && !a2.contains_key(k) && !a3.contains_key(k) implies written_str(
        b.str_cols@,
        idx,
        k,
        a1[k],
    ) by {
        assert(written_str(a.str_cols@, idx, k, a1[k]));
        assert(col_grows(a.str_cols@[k], b.str_cols@[k]));
        if !at_capacity(a.str_cols@[k]) {
            assert(b.str_cols@[k].data@.row(idx[k] as int) == a.str_cols@[k].data@.row(idx[k] as int));
        }
    }
}

/// Writes to other entities leave an entity as it was written: its
/// pointer is kept and its attributes stay written, so they read back
/// through [`lemma_read_your_write`] in the later state.
pub proof fn lemma_untouched_kept<F: FileSystem, const N: usize>(
    a: Partition<F, N>,
    b: Partition<F, N>,
    touched: Set<usize>,
    e: usize,
    a1: Map<Seq<char>, Seq<char>>,
    a2: Map<Seq<char>, u32>,
    a3: Map<Seq<char>, Seq<u8>>,
)
    requires
        write_step(a, b, touched),
        !touched.contains(e),
        a.shared_pointers@.contains_key(e),
        attrs_written(a.columns, a.shared_pointers@[e], a1, a2, a3),
    ensures
        b.shared_pointers@.contains_key(e),
        b.shared_pointers@[e] == a.shared_pointers@[e],
        attrs_written(b.columns, b.shared_pointers@[e], a1, a2, a3),
{
    lemma_written_grows(a.columns, b.columns, a.shared_pointers@[e], a1, a2, a3);
}

/// Last write wins: once an entity's attributes were written, they stay
/// written through any run of writes that do not name the entity.
pub proof fn lemma_last_write_wins<F: FileSystem, const N: usize>(
    states: Seq<Partition<F, N>>,
    touched: Seq<Set<usize>>,
    e: usize,
    a1: Map<Seq<char>, Seq<char>>,
    a2: Map<Seq<char>, u32>,
    a3: Map<Seq<char>, Seq<u8>>,
)
    requires
        states.len() == touched.len() + 1,
        forall|i: int| 0 <= i < touched.len() ==> write_step(states[i], states[i + 1], #[trigger] touched[i]),
        forall|i: int| 0 <= i < touched.len() ==> !(#[trigger] touched[i]).contains(e),
        states[0].shared_pointers@.contains_key(e),
        attrs_written(states[0].columns, states[0].shared_pointers@[e], a1, a2, a3),
    ensures
        states.last().shared_pointers@.contains_key(e),
        attrs_written(states.last().columns, states.last().shared_pointers@[e], a1, a2, a3),
    decreases touched.len(),
{
    if touched.len() > 0 {
        let n = touched.len() - 1;
        lemma_last_write_wins(states.drop_last(), touched.drop_last(), e, a1, a2, a3);
        assert(states.drop_last().last() == states[n]);
        assert(write_step(states[n], states[n + 1], touched[n]));
        assert(!touched[n].contains(e));
        lemma_untouched_kept(states[n], states[n + 1], touched[n], e, a1, a2, a3);
    }
}

/// What a write gives a reader back: once an insert wrote an entity's
/// attributes, a query session over the partition's pointers and columns
/// reads each attribute back with its type's getter, unless its column was
/// at capacity. A name that the blob map holds is read as a blob, one that
/// the integer map holds as an integer, any other as a string.
pub proof fn lemma_read_your_write<F: FileSystem, const N: usize>(
    part: Partition<F, N>,
    s: QuerySession<N>,
    id: usize,
    a1: Map<Seq<char>, Seq<char>>,
    a2: Map<Seq<char>, u32>,
    a3: Map<Seq<char>, Seq<u8>>,
)
    requires
        *s.pointers == part.shared_pointers,
        *s.columns == part.columns,
        part.shared_pointers@.contains_key(id),
        attrs_written(part.columns, part.shared_pointers@[id], a1, a2, a3),
    ensures
        forall|k: Seq<char>|
            #[trigger] a3.contains_key(k) && !at_capacity(part.columns.blob_cols@[k]) ==> s.spec_blob(id, k)
                == Lookup::Found(a3[k]),
        forall|k: Seq<char>|
            #[trigger] a2.contains_key(k) && !a3.contains_key(k) && !at_capacity(part.columns.int_cols@[k])
                ==> s.spec_int(id, k) == Lookup::Found(a2[k]),
        forall|k: Seq<char>|
            #[trigger] a1.contains_key(k) && !a2.contains_key(k) && !a3.contains_key(k) && !at_capacity(
                part.columns.str_cols@[k],
            ) ==> s.spec_str(id, k) == Lookup::Found(a1[k]),
{
}

/// What a batch gives a reader back: where the last write of a run of
/// writes to an entity holds, a query session over the partition reads
/// that write's attributes back (unless a column was at capacity), or, for
/// a delete, nothing under any name.
pub proof fn lemma_batch_reads_back<F: FileSystem, const N: usize>(
    part: Partition<F, N>,
    s: QuerySession<N>,
    ws: Seq<EntityWrite>,
    i: int,
)
    requires
        *s.pointers == part.shared_pointers,
        *s.columns == part.columns,
        writes_hold(part, ws),
        0 <= i < ws.len(),
        last_write(ws, i),
    ensures
        ws[i].1 matches Some(a) ==> {
            &&& forall|k: Seq<char>|
                #[trigger] a.2.contains_key(k) && !at_capacity(part.columns.blob_cols@[k]) ==> s.spec_blob(ws[i].0, k)
                    == Lookup::Found(a.2[k])
            &&& forall|k: Seq<char>|
                #[trigger] a.1.contains_key(k) && !a.2.contains_key(k) && !at_capacity(part.columns.int_cols@[k])
                    ==> s.spec_int(ws[i].0, k) == Lookup::Found(a.1[k])
            &&& forall|k: Seq<char>|
                #[trigger] a.0.contains_key(k) && !a.1.contains_key(k) && !a.2.contains_key(k) && !at_capacity(
                    part.columns.str_cols@[k],
                ) ==> s.spec_str(ws[i].0, k) == Lookup::Found(a.0[k])
        },
        ws[i].1 is None ==> {
            &&& forall|k: Seq<char>| #[trigger] s.spec_int(ws[i].0, k) == Lookup::<u32>::Absent
            &&& forall|k: Seq<char>| #[trigger] s.spec_str(ws[i].0, k) == Lookup::<Seq<char>>::Absent
            &&& forall|k: Seq<char>| #[trigger] s.spec_blob(ws[i].0, k) == Lookup::<Seq<u8>>::Absent
        },
{
    assert(write_holds(part, ws[i]));
    match ws[i].1 {
        Some(a) => lemma_read_your_write(part, s, ws[i].0, a.0, a.1, a.2),
        None => lemma_deleted_reads_absent(part, s, ws[i].0),
    }
}

/// What a delete gives a reader back: an entity whose pointer indexes no
/// attribute reads as absent under every name and type.
pub proof fn lemma_deleted_reads_absent<F: FileSystem, const N: usize>(part: Partition<F, N>, s: QuerySession<N>, id: usize)
    requires
        *s.pointers == part.shared_pointers,
        part.shared_pointers@.contains_key(id),
        part.shared_pointers@[id].attribute_indices@ == Map::<Seq<char>, usize>::empty(),
    ensures
        forall|k: Seq<char>| #[trigger] s.spec_int(id, k) == Lookup::<u32>::Absent,
        forall|k: Seq<char>| #[trigger] s.spec_str(id, k) == Lookup::<Seq<char>>::Absent,
        forall|k: Seq<char>| #[trigger] s.spec_blob(id, k) == Lookup::<Seq<u8>>::Absent,
{
}

} // verus!
