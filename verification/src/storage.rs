//! Append-only entity storage: one length-prefixed record per entity write,
//! an index from entity id to the latest record, and compaction.

use vstd::prelude::*;
use crate::codec::{get_bytes, get_u32, get_u64, le32, lemma_le32_len, lemma_u32_roundtrip, put_bytes, put_u32, u32_at, u64_at};
use crate::commands::{
    attrs_encodable, decode_entity, encode_entity, encodes_entity,
    lemma_entity_roundtrip, parse_entity, Attributes, AttrsView, Parsed, MAX_INPUT,
};
use crate::map::{AHashMap, MAX_ENTRIES};
use crate::platform::{io_message, slice_range, FileSystem, IoError};
use crate::rcu::{load_ref, new_atomic_ptr, swap_ptr, RcuCell};
use vstd::string::StringExecFns;

verus! {

/// The stored state of one entity: its id and its string, integer and blob
/// attributes.
pub struct EntityData {
    pub entity_id: usize,
    pub attributes: Attributes<String>,
    pub attributes_int: Attributes<u32>,
    pub attributes_blob: Attributes<Vec<u8>>,
}

impl EntityData {
    /// The entity's id and attribute maps, by value.
    pub open spec fn view(&self) -> (usize, AttrsView) {
        (self.entity_id, (self.attributes.view(), self.attributes_int.view(), self.attributes_blob.view()))
    }

    /// The attribute maps are well formed.
    pub open spec fn wf(&self) -> bool {
        self.attributes.wf() && self.attributes_int.wf() && self.attributes_blob.wf()
    }

    /// The entity's bytes: its id as eight little-endian bytes, then its
    /// string, integer and blob attribute maps.
    pub fn encode(&self) -> (r: Vec<u8>)
        requires
            self.wf(),
        ensures
            encodes_entity(self.view().0, self.view().1, r@),
    {
        let mut buf: Vec<u8> = Vec::new();
        encode_entity(&mut buf, self.entity_id, &self.attributes, &self.attributes_int, &self.attributes_blob);
        proof {
            let b = choose|b: Seq<u8>|
                buf@ == Seq::<u8>::empty() + b && #[trigger] encodes_entity(self.view().0, self.view().1, b);
            assert(buf@ =~= b);
        }
        buf
    }

    /// Reads an entity from the start of `buf`. Returns `None` when `buf` is
    /// too short or malformed.
    pub fn decode(buf: &[u8]) -> (r: Option<Self>)
        requires
            buf@.len() <= MAX_INPUT,
        ensures
            match parse_entity(buf@, 0) {
                Parsed::Done(it, _) => r matches Some(d) && d.wf() && d.view() == it,
                _ => r is None,
            },
    {
        let mut pos: usize = 0;
        match decode_entity(buf, &mut pos) {
            Some(x) => {
                let (entity_id, attributes, attributes_int, attributes_blob) = x;
                Some(EntityData { entity_id, attributes, attributes_int, attributes_blob })
            },
            None => None,
        }
    }
}

/// Decoding the bytes that `encode` gives for an entity whose lengths fit
/// their prefixes gives the entity back, and reads all of the bytes.
pub proof fn lemma_entity_data_roundtrip(id: usize, a: AttrsView, bytes: Seq<u8>)
    requires
        encodes_entity(id, a, bytes),
        attrs_encodable(a),
    ensures
        parse_entity(bytes, 0) == Parsed::Done((id, a), bytes.len() as int),
{
    assert(bytes =~= Seq::<u8>::empty() + bytes + Seq::<u8>::empty());
    lemma_entity_roundtrip(id, a, bytes, Seq::<u8>::empty(), Seq::<u8>::empty());
}

/// A record as the log stores it: the payload's length as four
/// little-endian bytes, then the payload.
pub open spec fn frame(payload: Seq<u8>) -> Seq<u8> {
    le32(payload.len() as u32) + payload
}

/// Frames `payload` as a record.
pub fn frame_record(payload: &[u8]) -> (r: Vec<u8>)
    ensures
        r@ == frame(payload@),
{
    let mut r: Vec<u8> = Vec::new();
    put_u32(&mut r, payload.len() as u32);
    put_bytes(&mut r, payload);
    proof {
        assert(r@ =~= frame(payload@));
    }
    r
}

/// The entity id at the start of a record's payload, if the payload holds
/// eight bytes.
pub fn peek_entity_id(buf: &[u8]) -> (r: Option<usize>)
    ensures
        r == if buf@.len() >= 8 {
            Some(u64_at(buf@, 0) as usize)
        } else {
            None::<usize>
        },
{
    match get_u64(buf, 0) {
        Some(v) => Some(v as usize),
        None => None,
    }
}

/// Scanning the log from `pos` with the index `idx` built so far: each
/// complete record whose payload starts with an entity id maps that id to
/// the record's offset and payload length. Scanning stops at the end of the
/// bytes, or past the length prefix of a record that is cut short. Gives
/// the index and the offset where scanning stopped.
pub open spec fn scan_records(bytes: Seq<u8>, pos: int, idx: Map<usize, (u64, u32)>) -> (Map<usize, (u64, u32)>, int)
    decreases bytes.len() - pos,
{
    if 0 <= pos && pos + 4 <= bytes.len() {
        let len = u32_at(bytes, pos) as int;
        if pos + 4 + len <= bytes.len() {
            let next = if len >= 8 {
                idx.insert(u64_at(bytes, pos + 4) as usize, (pos as u64, len as u32))
            } else {
                idx
            };
            scan_records(bytes, pos + 4 + len, next)
        } else {
            (idx, pos + 4)
        }
    } else {
        (idx, pos)
    }
}

/// Rebuilds the index of a whole log: for each entity, the offset and
/// payload length of its last complete record; and the offset where the
/// next record goes.
pub fn scan_index(bytes: &[u8]) -> (r: (AHashMap<usize, (u64, u32)>, u64))
    requires
        bytes@.len() <= MAX_INPUT,
    ensures
        r.0.wf(),
        r.0@.len() <= MAX_ENTRIES,
        (r.0@, r.1 as int) == scan_records(bytes@, 0, Map::empty()),
{
    let mut map: AHashMap<usize, (u64, u32)> = AHashMap::new();
    let mut pos: usize = 0;
    let blen = bytes.len();
    while pos <= blen && blen - pos >= 4
        invariant
            blen == bytes@.len(),
            blen <= MAX_INPUT,
            pos <= blen,
            map.wf(),
            map@.len() * 12 <= pos,
            scan_records(bytes@, pos as int, map@) == scan_records(bytes@, 0, Map::empty()),
        decreases blen - pos,
    {
        let len = get_u32(bytes, pos).unwrap() as usize;
        let start = pos;
        pos = pos + 4;
        if len <= blen - pos {
            match peek_entity_id(get_bytes(bytes, pos, len).unwrap()) {
                Some(entity_id) => {
                    let ghost prev = map@;
                    proof {
                        map.lemma_finite();
                        assert(bytes@.subrange(pos as int, pos + len).subrange(0, 8) =~= bytes@.subrange(
                            pos as int,
                            pos + 8,
                        ));
                    }
                    map.insert(entity_id, (start as u64, len as u32));
                    proof {
                        assert(map@.dom() =~= prev.dom().insert(entity_id));
                    }
                },
                None => {},
            }
            pos = pos + len;
        } else {
            return (map, pos as u64);
        }
    }
    (map, pos as u64)
}

/// The path of the entity log under `base`.
fn entities_path(base: &str) -> (r: String)
    ensures
        r@ == base@ + "/entities.bin"@,
{
    String::from_str(base).concat("/entities.bin")
}

/// `bytes` is a record whose payload decodes to the entity `it`.
pub open spec fn decodes_record(bytes: Seq<u8>, it: (usize, AttrsView)) -> bool {
    &&& bytes.len() >= 4
    &&& bytes.len() >= 4 + u32_at(bytes, 0)
    &&& parse_entity(bytes.subrange(4, 4 + u32_at(bytes, 0)), 0) matches Parsed::Done(x, _) && x == it
}

/// A framed entity encoding decodes back to the entity: what
/// [`Storage::write_entity`] appends, [`decode_record`] reads back.
pub proof fn lemma_record_roundtrip(id: usize, a: AttrsView, bytes: Seq<u8>)
    requires
        encodes_entity(id, a, bytes),
        attrs_encodable(a),
        bytes.len() <= u32::MAX,
    ensures
        decodes_record(frame(bytes), (id, a)),
{
    let f = frame(bytes);
    lemma_le32_len(bytes.len() as u32);
    lemma_u32_roundtrip(Seq::<u8>::empty(), bytes.len() as u32, bytes);
    assert(f =~= Seq::<u8>::empty() + le32(bytes.len() as u32) + bytes);
    assert(f.subrange(4, 4 + u32_at(f, 0)) =~= bytes);
    lemma_entity_data_roundtrip(id, a, bytes);
}

/// `d` is well formed and some record decodes to it.
pub open spec fn read_back(d: EntityData) -> bool {
    d.wf() && exists|bytes: Seq<u8>| #[trigger] decodes_record(bytes, d.view())
}

/// The scan of a log stops within it.
pub proof fn lemma_scan_end_within(bytes: Seq<u8>, pos: int, idx: Map<usize, (u64, u32)>)
    requires
        0 <= pos <= bytes.len(),
    ensures
        pos <= scan_records(bytes, pos, idx).1 <= bytes.len(),
    decreases bytes.len() - pos,
{
    if pos + 4 <= bytes.len() {
        let len = u32_at(bytes, pos) as int;
        if pos + 4 + len <= bytes.len() {
            let next = if len >= 8 {
                idx.insert(u64_at(bytes, pos + 4) as usize, (pos as u64, len as u32))
            } else {
                idx
            };
            lemma_scan_end_within(bytes, pos + 4 + len, next);
        }
    }
}

/// The bytes of the record that an index entry points at: the length
/// prefix and the payload.
pub open spec fn record_at(log: Seq<u8>, entry: (u64, u32)) -> Seq<u8> {
    log.subrange(entry.0 as int, entry.0 + 4 + entry.1)
}

/// In `log`, the record that `index` gives for `id` lies within the log and
/// decodes to the entity `it`.
pub open spec fn holds_entity(log: Seq<u8>, index: Map<usize, (u64, u32)>, id: usize, it: (usize, AttrsView)) -> bool {
    &&& index.contains_key(id)
    &&& index[id].0 + 4 + index[id].1 <= log.len()
    &&& decodes_record(record_at(log, index[id]), it)
}

/// What decoding a record read from the log gives: the entity, or the
/// message of the error.
pub open spec fn record_outcome(bytes: Seq<u8>) -> Result<(usize, AttrsView), Seq<char>> {
    if bytes.len() > MAX_INPUT {
        Err("Decode failed"@)
    } else if bytes.len() < 4 {
        Err("Truncated"@)
    } else if bytes.len() < 4 + u32_at(bytes, 0) {
        Err("Truncated"@)
    } else {
        match parse_entity(bytes.subrange(4, 4 + u32_at(bytes, 0)), 0) {
            Parsed::Done(it, _) => Ok(it),
            _ => Err("Decode failed"@),
        }
    }
}

/// What a read of a record gives, from what the file system answered.
pub open spec fn read_outcome(fetched: Result<Seq<u8>, IoError>) -> Result<(usize, AttrsView), Seq<char>> {
    match fetched {
        Ok(bytes) => record_outcome(bytes),
        Err(e) => Err(io_message(e)),
    }
}

/// `r` is the outcome `o`: the entity it describes, or its message.
pub open spec fn gives(r: Result<EntityData, String>, o: Result<(usize, AttrsView), Seq<char>>) -> bool {
    match (r, o) {
        (Ok(d), Ok(it)) => d.wf() && d.view() == it,
        (Err(e), Err(m)) => e@ == m,
        _ => false,
    }
}

/// What a file system answer is, by value.
pub open spec fn fetched_view(f: Result<Vec<u8>, IoError>) -> Result<Seq<u8>, IoError> {
    match f {
        Ok(v) => Ok(v@),
        Err(e) => Err(e),
    }
}

/// Turns what the file system answered for a record into the entity it
/// holds, or an error: the file system's message, or why the record does
/// not decode.
pub fn read_result(fetched: Result<Vec<u8>, IoError>) -> (r: Result<EntityData, String>)
    ensures
        gives(r, read_outcome(fetched_view(fetched))),
{
    match fetched {
        Ok(bytes) => {
            if bytes.len() > MAX_INPUT {
                return Err("Decode failed".to_string());
            }
            decode_record(bytes.as_slice())
        },
        Err(e) => Err(e.to_message()),
    }
}

/// A record that the log holds for an entity reads back as that entity:
/// when the file system gives back the bytes of the log at the entry the
/// index holds for `id`, the read gives the entity the record was written
/// for.
pub proof fn lemma_read_after_write(log: Seq<u8>, index: Map<usize, (u64, u32)>, id: usize, it: (usize, AttrsView))
    requires
        holds_entity(log, index, id, it),
        record_at(log, index[id]).len() <= MAX_INPUT,
    ensures
        read_outcome(Ok(record_at(log, index[id]))) == Ok::<(usize, AttrsView), Seq<char>>(it),
{
}

/// Decodes one record read from the log: a length prefix, then an entity.
pub fn decode_record(bytes: &[u8]) -> (r: Result<EntityData, String>)
    requires
        bytes@.len() <= MAX_INPUT,
    ensures
        bytes@.len() < 4 ==> (r matches Err(e) && e@ == "Truncated"@),
        bytes@.len() >= 4 && bytes@.len() < 4 + u32_at(bytes@, 0) ==> (r matches Err(e) && e@
            == "Truncated"@),
        bytes@.len() >= 4 && bytes@.len() >= 4 + u32_at(bytes@, 0) ==> match parse_entity(
            bytes@.subrange(4, 4 + u32_at(bytes@, 0)),
            0,
        ) {
            Parsed::Done(it, _) => r matches Ok(d) && d.wf() && d.view() == it,
            _ => r matches Err(e) && e@ == "Decode failed"@,
        },
{
    let data_len = match get_u32(bytes, 0) {
        Some(n) => n as usize,
        None => return Err("Truncated".to_string()),
    };
    let body = match get_bytes(bytes, 4, data_len) {
        Some(b) => b,
        None => return Err("Truncated".to_string()),
    };
    match EntityData::decode(body) {
        Some(d) => Ok(d),
        None => Err("Decode failed".to_string()),
    }
}

/// The ids that a block read probes: the `2 * block_size` ids from the start
/// of the block of `entity_id`.
pub fn block_ids(entity_id: usize, block_size: usize) -> (r: Vec<usize>)
    requires
        block_size > 0,
        (entity_id / block_size) * block_size + 2 * block_size <= usize::MAX,
    ensures
        r@.len() == 2 * block_size,
        forall|i: int| 0 <= i < r@.len() ==> #[trigger] r@[i] == (entity_id / block_size) * block_size + i,
{
    let q = entity_id / block_size;
    proof {
        vstd::arithmetic::div_mod::lemma_fundamental_div_mod(entity_id as int, block_size as int);
        assert(q * block_size <= entity_id) by (nonlinear_arith)
            requires
                q == entity_id / block_size,
                block_size > 0,
        ;
    }
    let start = q * block_size;
    let fetch = block_size * 2;
    let mut r: Vec<usize> = Vec::new();
    let mut i: usize = 0;
    while i < fetch
        invariant
            fetch == 2 * block_size,
            start == (entity_id / block_size) * block_size,
            start + fetch <= usize::MAX,
            i <= fetch,
            r@.len() == i,
            forall|j: int| 0 <= j < i ==> #[trigger] r@[j] == start + j,
        decreases fetch - i,
    {
        r.push(start + i);
        i = i + 1;
    }
    r
}

/// A copy of an index.
fn copy_index(m: &AHashMap<usize, (u64, u32)>) -> (r: AHashMap<usize, (u64, u32)>)
    requires
        m.wf(),
        m@.len() <= MAX_ENTRIES,
    ensures
        r.wf(),
        r@ == m@,
{
    let entries = m.iter();
    let mut r: AHashMap<usize, (u64, u32)> = AHashMap::new();
    let mut i: usize = 0;
    proof {
        m.lemma_finite();
    }
    while i < entries.len()
        invariant
            m.wf(),
            m@.dom().finite(),
            m@.len() <= MAX_ENTRIES,
            i <= entries@.len(),
            r.wf(),
            forall|j: int| 0 <= j < entries@.len() ==> m@.contains_key((#[trigger] entries@[j]).0@) && m@[entries@[j].0@]
                == *entries@[j].1,
            forall|j1: int, j2: int|
                0 <= j1 < j2 < entries@.len() ==> (#[trigger] entries@[j1]).0@ != (#[trigger] entries@[j2]).0@,
            forall|k: usize| #[trigger] r@.contains_key(k) <==> exists|j: int| 0 <= j < i && (#[trigger] entries@[j]).0@ == k,
            forall|k: usize| #[trigger] r@.contains_key(k) ==> r@[k] == m@[k],
            r@.len() == i,
        decreases entries@.len() - i,
    {
        let (k, v) = entries[i];
        let ghost prev = r@;
        proof {
            r.lemma_finite();
            assert(!prev.contains_key(*k)) by {
                if prev.contains_key(*k) {
                    let j = choose|j: int| 0 <= j < i && (#[trigger] entries@[j]).0@ == *k;
                    assert(entries@[j].0@ != entries@[i as int].0@);
                }
            }
            assert(r@.dom().subset_of(m@.dom()));
            vstd::set_lib::lemma_len_subset(r@.dom(), m@.dom());
            assert(r@.len() < MAX_ENTRIES) by {
                assert(r@.dom().contains(*k) == false);
                assert(r@.dom().insert(*k).subset_of(m@.dom()));
                vstd::set_lib::lemma_len_subset(r@.dom().insert(*k), m@.dom());
            }
        }
        r.insert(*k, *v);
        proof {
            assert(r@.dom() =~= prev.dom().insert(*k));
            assert forall|kk: usize| #[trigger] r@.contains_key(kk) <==> exists|j: int|
                0 <= j < i + 1 && (#[trigger] entries@[j]).0@ == kk by {
                if kk == *k {
                    assert(entries@[i as int].0@ == kk);
                }
                if r@.contains_key(kk) && kk != *k {
                    assert(prev.contains_key(kk));
                }
                if exists|j: int| 0 <= j < i + 1 && (#[trigger] entries@[j]).0@ == kk {
                    let j = choose|j: int| 0 <= j < i + 1 && (#[trigger] entries@[j]).0@ == kk;
                    if j < i {
                        assert(prev.contains_key(kk));
                    }
                }
            }
        }
        i = i + 1;
    }
    proof {
        assert forall|k: usize| m@.contains_key(k) implies #[trigger] r@.contains_key(k) by {
            assert(exists|j: int| 0 <= j < entries@.len() && (#[trigger] entries@[j]).0@ == k);
        }
        assert(r@ =~= m@);
    }
    r
}

/// The bytes of records kept by compaction, one after the other.
pub open spec fn joined(rs: Seq<(usize, u32, Seq<u8>)>) -> Seq<u8>
    decreases rs.len(),
{
    if rs.len() == 0 {
        Seq::empty()
    } else {
        joined(rs.drop_last()) + rs.last().2
    }
}

/// Kept records by value.
pub open spec fn kept_view(rs: Seq<(usize, u32, Vec<u8>)>) -> Seq<(usize, u32, Seq<u8>)> {
    rs.map_values(|r: (usize, u32, Vec<u8>)| (r.0, r.1, r.2@))
}

/// The records hold no entity twice.
pub open spec fn distinct_ids(rs: Seq<(usize, u32, Seq<u8>)>) -> bool {
    forall|i: int, j: int| 0 <= i < j < rs.len() ==> (#[trigger] rs[i]).0 != (#[trigger] rs[j]).0
}

/// The records joined, two runs at a time.
pub proof fn lemma_joined_concat(a: Seq<(usize, u32, Seq<u8>)>, b: Seq<(usize, u32, Seq<u8>)>)
    ensures
        joined(a + b) == joined(a) + joined(b),
    decreases b.len(),
{
    if b.len() == 0 {
        assert(a + b =~= a);
        assert(joined(a) + joined(b) =~= joined(a));
    } else {
        lemma_joined_concat(a, b.drop_last());
        assert((a + b).drop_last() =~= a + b.drop_last());
        assert(joined(a + b) =~= joined(a) + joined(b));
    }
}

/// Record `i` lands right after the records before it.
pub proof fn lemma_joined_at(rs: Seq<(usize, u32, Seq<u8>)>, i: int)
    requires
        0 <= i < rs.len(),
    ensures
        joined(rs.take(i)).len() + rs[i].2.len() <= joined(rs).len(),
        joined(rs).subrange(joined(rs.take(i)).len() as int, (joined(rs.take(i)).len() + rs[i].2.len()) as int) == rs[i].2,
{
    let a = rs.take(i);
    let b = rs.skip(i);
    assert(a + b =~= rs);
    lemma_joined_concat(a, b);
    let c = b.skip(1);
    assert(seq![rs[i]] + c =~= b);
    lemma_joined_concat(seq![rs[i]], c);
    assert(seq![rs[i]].drop_last() =~= Seq::<(usize, u32, Seq<u8>)>::empty());
    assert(joined(seq![rs[i]].drop_last()) =~= Seq::<u8>::empty());
    assert(joined(seq![rs[i]]) =~= rs[i].2);
    assert(joined(rs) =~= joined(a) + rs[i].2 + joined(c));
    assert(joined(rs).subrange(joined(a).len() as int, (joined(a).len() + rs[i].2.len()) as int) =~= rs[i].2);
}

/// Compaction keeps every entity it kept readable as it was: when the
/// bytes it read for an entity were the old log's record at the entity's
/// old entry, and that record decoded to the entity, the new log's record
/// at the entity's new entry decodes to it too.
pub proof fn lemma_compaction_keeps_entities(
    old_log: Seq<u8>,
    old_index: Map<usize, (u64, u32)>,
    index: Map<usize, (u64, u32)>,
    log: Seq<u8>,
    rs: Seq<(usize, u32, Seq<u8>)>,
    i: int,
    it: (usize, AttrsView),
)
    requires
        compacted_from(old_index, index, log, rs),
        0 <= i < rs.len(),
        holds_entity(old_log, old_index, rs[i].0, it),
        rs[i].2 == record_at(old_log, old_index[rs[i].0]),
    ensures
        holds_entity(log, index, rs[i].0, it),
{
    lemma_compacted_reads(old_index, index, log, rs, i);
}

/// One more record joined: its bytes follow, and the whole still holds the
/// prefix.
proof fn lemma_joined_step(vs: Seq<(usize, u32, Seq<u8>)>, i: int)
    requires
        0 <= i < vs.len(),
    ensures
        joined(vs.take(i + 1)) == joined(vs.take(i)) + vs[i].2,
        joined(vs.take(i + 1)).len() <= joined(vs).len(),
{
    assert(vs.take(i + 1).drop_last() =~= vs.take(i));
    lemma_joined_concat(vs.take(i + 1), vs.skip(i + 1));
    assert(vs.take(i + 1) + vs.skip(i + 1) =~= vs);
}

/// `index` and `log` are what compaction builds from the records `rs`,
/// read for entries of `old_index`: the log is the records one after the
/// other, and each entity points at its record, keeping its payload length.
pub open spec fn compacted_from(
    old_index: Map<usize, (u64, u32)>,
    index: Map<usize, (u64, u32)>,
    log: Seq<u8>,
    rs: Seq<(usize, u32, Seq<u8>)>,
) -> bool {
    &&& distinct_ids(rs)
    &&& log == joined(rs)
    &&& log.len() <= u64::MAX
    &&& forall|i: int|
        0 <= i < rs.len() ==> old_index.contains_key((#[trigger] rs[i]).0) && rs[i].1 == old_index[rs[i].0].1
            && rs[i].2.len() > 0 && index.contains_key(rs[i].0) && index[rs[i].0] == (
            joined(rs.take(i)).len() as u64,
            rs[i].1,
        )
    &&& forall|k: usize| #[trigger] index.contains_key(k) ==> exists|i: int| 0 <= i < rs.len() && (#[trigger] rs[i]).0 == k
}

/// The record at `entry` was written before the append offset `log_end`
/// and lies within a file of `file_len` bytes.
pub open spec fn keepable(entry: (u64, u32), log_end: u64, file_len: nat) -> bool {
    entry.0 < log_end && entry.0 + 4 + entry.1 <= file_len
}

/// Each of the records `rs` is the bytes of `file` at the entry that
/// `old_index` holds for its entity, and lies within the file.
pub open spec fn cut_from(file: Seq<u8>, old_index: Map<usize, (u64, u32)>, rs: Seq<(usize, u32, Seq<u8>)>) -> bool {
    forall|i: int|
        0 <= i < rs.len() ==> old_index[(#[trigger] rs[i]).0].0 + 4 + old_index[rs[i].0].1 <= file.len() && rs[i].2
            == record_at(file, old_index[rs[i].0])
}

/// The records `kept` are those compaction cuts from `file` for `index`:
/// each kept entity is in the index with its payload length and its bytes
/// are the file's record at its entry; and every entry written before
/// `log_end` that lies within the file is kept, unless the records kept
/// would not fit in memory.
#[verifier::opaque]
pub open spec fn records_cut(
    index: Map<usize, (u64, u32)>,
    kept: Seq<(usize, u32, Vec<u8>)>,
    file: Seq<u8>,
    log_end: u64,
) -> bool {
    &&& forall|t: int|
        0 <= t < kept.len() ==> index.contains_key((#[trigger] kept[t]).0) && kept[t].1 == index[kept[t].0].1
            && kept[t].2@.len() > 0
    &&& forall|t: int|
        0 <= t < kept.len() ==> index[(#[trigger] kept[t]).0].0 + 4 + index[kept[t].0].1 <= file.len()
            && kept[t].2@ == record_at(file, index[kept[t].0])
    &&& forall|id: usize|
        #[trigger] index.contains_key(id) && keepable(index[id], log_end, file.len()) ==> (exists|t: int|
            0 <= t < kept.len() && (#[trigger] kept[t]).0 == id) || joined(kept_view(kept)).len() + 4 + index[id].1
            > usize::MAX
}

/// The records compaction keeps: for each entry of `index` written before
/// `log_end`, the bytes of `file` at the entry, when they lie within it and
/// their total still fits in memory.
fn cut_records(index: &AHashMap<usize, (u64, u32)>, whole: &Vec<u8>, log_end: u64) -> (kept: Vec<(usize, u32, Vec<u8>)>)
    requires
        index.wf(),
        index@.len() <= MAX_ENTRIES,
    ensures
        kept@.len() <= index@.len(),
        joined(kept_view(kept@)).len() <= usize::MAX,
        distinct_ids(kept_view(kept@)),
        records_cut(index@, kept@, whole@, log_end),
{
    let ghost old_index = index@;
    proof {
        assert(whole@.len() == whole.len());
    }
        let mut kept: Vec<(usize, u32, Vec<u8>)> = Vec::new();
        let mut total: usize = 0;
        let ghost mut ids: Set<usize> = Set::empty();
        {
            let entries = index.iter();
            let mut i: usize = 0;
            proof {
                index.lemma_finite();
                assert(kept_view(kept@) =~= Seq::<(usize, u32, Seq<u8>)>::empty());
            }
            while i < entries.len()
                invariant
                    old_index == index@,
                    old_index.dom().finite(),
                    old_index.len() <= MAX_ENTRIES,
                    i <= entries@.len(),
                    forall|j: int|
                        0 <= j < entries@.len() ==> old_index.contains_key((#[trigger] entries@[j]).0@) && old_index[entries@[j].0@]
                            == *entries@[j].1,
                    forall|j1: int, j2: int|
                        0 <= j1 < j2 < entries@.len() ==> (#[trigger] entries@[j1]).0@ != (#[trigger] entries@[j2]).0@,
                    distinct_ids(kept_view(kept@)),
                    total as int == joined(kept_view(kept@)).len(),
                    whole@.len() <= usize::MAX,
                    forall|j: int|
                        0 <= j < i && #[trigger] keepable(*entries@[j].1, log_end, whole@.len()) ==> ids.contains(
                            entries@[j].0@,
                        ) || total + 4 + (*entries@[j].1).1 > usize::MAX,
                    ids.finite(),
                    ids.len() == kept@.len(),
                    forall|k: usize| ids.contains(k) <==> exists|t: int| 0 <= t < kept@.len() && (#[trigger] kept@[t]).0 == k,
                    forall|t: int|
                        0 <= t < kept@.len() ==> exists|j: int| 0 <= j < i && (#[trigger] entries@[j]).0@ == (#[trigger] kept@[t]).0,
                    forall|t: int|
                        0 <= t < kept@.len() ==> old_index.contains_key((#[trigger] kept@[t]).0) && kept@[t].1
                            == old_index[kept@[t].0].1 && kept@[t].2@.len() > 0,
                    forall|t: int|
                        0 <= t < kept@.len() ==> old_index[(#[trigger] kept@[t]).0].0 + 4 + old_index[kept@[t].0].1
                            <= whole@.len() && kept@[t].2@ == record_at(whole@, old_index[kept@[t].0]),
                decreases entries@.len() - i,
            {
                let ghost ids0 = ids;
                let ghost total0 = total;
                let (id, v) = entries[i];
                let (off, len) = *v;
                let want = len as usize;
                if off < log_end && want <= usize::MAX - 4 && off <= usize::MAX as u64 {
                    match slice_range(whole.as_slice(), off, want + 4) {
                        Ok(bytes) => {
                            if bytes.len() > 0 && bytes.len() <= usize::MAX - total {
                                let ghost before = kept@;
                                let ghost bv = bytes@;
                                proof {
                                    assert(!ids.contains(*id)) by {
                                        if ids.contains(*id) {
                                            let t = choose|t: int| 0 <= t < kept@.len() && (#[trigger] kept@[t]).0 == *id;
                                            let j = choose|j: int| 0 <= j < i && (#[trigger] entries@[j]).0@ == (#[trigger] kept@[t]).0;
                                            assert(entries@[j].0@ != entries@[i as int].0@);
                                        }
                                    }
                                    assert(old_index.contains_key(*id));
                                }
                                total = total + bytes.len();
                                kept.push((*id, len, bytes));
                                proof {
                                    let vb = kept_view(before);
                                    let va = kept_view(kept@);
                                    assert(va.drop_last() =~= vb);
                                    assert(va.last() == (*id, len, bv));
                                    assert forall|t1: int, t2: int| 0 <= t1 < t2 < va.len() implies (#[trigger] va[t1]).0
                                        != (#[trigger] va[t2]).0 by {
                                        if t2 == va.len() - 1 {
                                            assert(va[t1].0 == before[t1].0);
                                            assert(ids.contains(before[t1].0));
                                        } else {
                                            assert(va[t1] == vb[t1]);
                                            assert(va[t2] == vb[t2]);
                                        }
                                    }
                                    ids = ids.insert(*id);
                                    assert forall|k: usize| ids.contains(k) <==> exists|t: int|
                                        0 <= t < kept@.len() && (#[trigger] kept@[t]).0 == k by {
                                        if ids.contains(k) && k != *id {
                                            let t = choose|t: int| 0 <= t < before.len() && (#[trigger] before[t]).0 == k;
                                            assert(kept@[t] == before[t]);
                                        }
                                        if exists|t: int| 0 <= t < kept@.len() && (#[trigger] kept@[t]).0 == k {
                                            let t = choose|t: int| 0 <= t < kept@.len() && (#[trigger] kept@[t]).0 == k;
                                            if t < before.len() {
                                                assert(kept@[t] == before[t]);
                                            }
                                        }
                                    }
                                    assert forall|t: int| 0 <= t < kept@.len() implies exists|j: int|
                                        0 <= j < i + 1 && (#[trigger] entries@[j]).0@ == (#[trigger] kept@[t]).0 by {
                                        if t < before.len() {
                                            assert(kept@[t] == before[t]);
                                            let j = choose|j: int| 0 <= j < i && (#[trigger] entries@[j]).0@ == (#[trigger] before[t]).0;
                                            assert(entries@[j].0@ == kept@[t].0);
                                        } else {
                                            assert(entries@[i as int].0@ == kept@[t].0);
                                        }
                                    }
                                    assert forall|t: int| 0 <= t < kept@.len() implies old_index.contains_key(
                                        (#[trigger] kept@[t]).0,
                                    ) && kept@[t].1 == old_index[kept@[t].0].1 && kept@[t].2@.len() > 0 by {
                                        if t < before.len() {
                                            assert(kept@[t] == before[t]);
                                        }
                                    }
                                }
                            }
                        },
                        Err(_) => {},
                    }
                }
                proof {
                    assert(ids0.subset_of(ids) && total0 <= total);
                    if keepable(*entries@[i as int].1, log_end, whole@.len()) {
                        assert(ids.contains(*id) || total + 4 + len > usize::MAX);
                    }
                    assert forall|j: int|
                        0 <= j < i + 1 && #[trigger] keepable(*entries@[j].1, log_end, whole@.len()) implies ids.contains(
                            entries@[j].0@,
                        ) || total + 4 + (*entries@[j].1).1 > usize::MAX by {
                        if j < i {
                            assert(ids0.contains(entries@[j].0@) || total0 + 4 + (*entries@[j].1).1 > usize::MAX);
                        }
                    }
                }
                i = i + 1;
            }
            proof {
                assert forall|id: usize|
                    #[trigger] index@.contains_key(id) && keepable(index@[id], log_end, whole@.len()) implies (exists|t: int|
                        0 <= t < kept@.len() && (#[trigger] kept@[t]).0 == id) || joined(kept_view(kept@)).len() + 4
                        + index@[id].1 > usize::MAX by {
                    let j = choose|j: int| 0 <= j < entries@.len() && (#[trigger] entries@[j]).0@ == id;
                    assert(*entries@[j].1 == index@[id]);
                    if ids.contains(id) {
                        let t = choose|t: int| 0 <= t < kept@.len() && (#[trigger] kept@[t]).0 == id;
                    }
                }
            }
        }
        proof {
            assert(ids.subset_of(old_index.dom()));
            vstd::set_lib::lemma_len_subset(ids, old_index.dom());
        }
    proof {
        assert(ids.subset_of(old_index.dom()));
        vstd::set_lib::lemma_len_subset(ids, old_index.dom());
        reveal(records_cut);
    }
    kept
}

/// What compaction builds from the records it cut: the log and index of
/// [`compacted_from`], an index inside the old one keeping each payload
/// length, and every entry that could be cut kept unless the new log would
/// not fit in memory.
proof fn lemma_compact_outcome(
    old_index: Map<usize, (u64, u32)>,
    kept: Seq<(usize, u32, Vec<u8>)>,
    file: Seq<u8>,
    new_log: Seq<u8>,
    new_index: Map<usize, (u64, u32)>,
    log_end: u64,
)
    requires
        old_index.dom().finite(),
        distinct_ids(kept_view(kept)),
        joined(kept_view(kept)).len() <= usize::MAX,
        records_cut(old_index, kept, file, log_end),
        new_log == joined(kept_view(kept)),
        forall|i: int|
            0 <= i < kept.len() ==> new_index.contains_key((#[trigger] kept[i]).0) && new_index[kept[i].0] == (
                joined(kept_view(kept).take(i)).len() as u64,
                kept[i].1,
            ),
        forall|k: usize| #[trigger] new_index.contains_key(k) ==> exists|i: int| 0 <= i < kept.len() && (#[trigger] kept[i]).0 == k,
    ensures
        compacted_from(old_index, new_index, new_log, kept_view(kept)),
        cut_from(file, old_index, kept_view(kept)),
        new_index.dom().subset_of(old_index.dom()),
        new_index.len() <= old_index.len(),
        forall|id: usize| #[trigger] new_index.contains_key(id) ==> new_index[id].1 == old_index[id].1 && new_index[id].0
            < new_log.len(),
        forall|id: usize|
            #[trigger] old_index.contains_key(id) && keepable(old_index[id], log_end, file.len()) ==> new_index.contains_key(id)
                || new_log.len() + 4 + old_index[id].1 > usize::MAX,
{
    reveal(records_cut);
    lemma_cut_records(kept, file, old_index);
    let rs = kept_view(kept);
    assert forall|k: usize| #[trigger] new_index.contains_key(k) implies old_index.contains_key(k) by {
        let t = choose|t: int| 0 <= t < kept.len() && (#[trigger] kept[t]).0 == k;
    }
    assert(new_index.dom().subset_of(old_index.dom()));
    vstd::set_lib::lemma_len_subset(new_index.dom(), old_index.dom());
    assert forall|t: int| 0 <= t < rs.len() implies old_index.contains_key((#[trigger] rs[t]).0) && rs[t].1
        == old_index[rs[t].0].1 && rs[t].2.len() > 0 && new_index.contains_key(rs[t].0) && new_index[rs[t].0] == (
        joined(rs.take(t)).len() as u64,
        rs[t].1,
    ) by {
        assert(rs[t] == (kept[t].0, kept[t].1, kept[t].2@));
        assert(new_index.contains_key(kept[t].0));
    }
    assert forall|k: usize| #[trigger] new_index.contains_key(k) implies exists|t: int|
        0 <= t < rs.len() && (#[trigger] rs[t]).0 == k by {
        let t = choose|t: int| 0 <= t < kept.len() && (#[trigger] kept[t]).0 == k;
        assert(rs[t].0 == k);
    }
    assert forall|id: usize| #[trigger] new_index.contains_key(id) implies new_index[id].1 == old_index[id].1
        && new_index[id].0 < new_log.len() by {
        let t = choose|t: int| 0 <= t < kept.len() && (#[trigger] kept[t]).0 == id;
        assert(rs[t].0 == id);
        lemma_joined_at(rs, t);
    }
    assert forall|id: usize|
        #[trigger] old_index.contains_key(id) && keepable(old_index[id], log_end, file.len()) implies new_index.contains_key(id)
            || new_log.len() + 4 + old_index[id].1 > usize::MAX by {
        if exists|t: int| 0 <= t < kept.len() && (#[trigger] kept[t]).0 == id {
            let t = choose|t: int| 0 <= t < kept.len() && (#[trigger] kept[t]).0 == id;
        }
    }
}

/// Compaction keeps each entity's latest record: when the file it read
/// holds the log (the log's bytes are a prefix of the file), every record
/// it kept is the old log's record at the entity's old entry, so each
/// kept entity that read back as some entity before reads back as the same
/// entity after; and every entity whose record was written before the
/// append offset is kept, unless the new log would not fit in memory.
pub proof fn lemma_compaction_reads_as_before(
    old_log: Seq<u8>,
    old_index: Map<usize, (u64, u32)>,
    log_end: u64,
    file: Seq<u8>,
    index: Map<usize, (u64, u32)>,
    log: Seq<u8>,
    rs: Seq<(usize, u32, Seq<u8>)>,
    id: usize,
    it: (usize, AttrsView),
)
    requires
        compacted_from(old_index, index, log, rs),
        cut_from(file, old_index, rs),
        forall|k: usize|
            #[trigger] old_index.contains_key(k) && keepable(old_index[k], log_end, file.len()) ==> index.contains_key(k)
                || log.len() + 4 + old_index[k].1 > usize::MAX,
        old_log.len() <= file.len(),
        file.subrange(0, old_log.len() as int) == old_log,
        old_log.len() <= log_end,
        holds_entity(old_log, old_index, id, it),
    ensures
        old_index[id].0 < log_end && log.len() + 4 + old_index[id].1 <= usize::MAX ==> index.contains_key(id),
        index.contains_key(id) ==> record_at(log, index[id]) == record_at(old_log, old_index[id]),
        index.contains_key(id) ==> holds_entity(log, index, id, it),
{
    let e = old_index[id];
    assert(record_at(file, e) =~= record_at(old_log, e)) by {
        assert forall|j: int| 0 <= j < record_at(file, e).len() implies record_at(file, e)[j] == record_at(old_log, e)[j] by {
            assert(file.subrange(0, old_log.len() as int)[e.0 + j] == file[e.0 + j]);
        }
    }
    if old_index[id].0 < log_end {
        assert(keepable(e, log_end, file.len()));
    }
    if index.contains_key(id) {
        let i = choose|i: int| 0 <= i < rs.len() && (#[trigger] rs[i]).0 == id;
        assert(rs[i].2 == record_at(file, old_index[rs[i].0]));
        lemma_compaction_keeps_entities(old_log, old_index, index, log, rs, i, it);
        lemma_compacted_reads(old_index, index, log, rs, i);
    }
}

/// Records each cut from `file` at its entity's entry are, by value, cut
/// from it.
proof fn lemma_cut_records(kept: Seq<(usize, u32, Vec<u8>)>, file: Seq<u8>, old_index: Map<usize, (u64, u32)>)
    requires
        forall|t: int|
            0 <= t < kept.len() ==> old_index[(#[trigger] kept[t]).0].0 + 4 + old_index[kept[t].0].1 <= file.len()
                && kept[t].2@ == record_at(file, old_index[kept[t].0]),
    ensures
        cut_from(file, old_index, kept_view(kept)),
{
    let rs = kept_view(kept);
    assert forall|i: int| 0 <= i < rs.len() implies old_index[(#[trigger] rs[i]).0].0 + 4 + old_index[rs[i].0].1
        <= file.len() && rs[i].2 == record_at(file, old_index[rs[i].0]) by {
        assert(rs[i] == (kept[i].0, kept[i].1, kept[i].2@));
    }
}

/// Compaction keeps what reads give: when the bytes compaction read for an
/// entity's record have the record's length, a read after compaction that
/// gets back the new log's bytes at the entity's new entry gives the same
/// outcome as those bytes gave.
pub proof fn lemma_compacted_reads(
    old_index: Map<usize, (u64, u32)>,
    index: Map<usize, (u64, u32)>,
    log: Seq<u8>,
    rs: Seq<(usize, u32, Seq<u8>)>,
    i: int,
)
    requires
        compacted_from(old_index, index, log, rs),
        0 <= i < rs.len(),
        rs[i].2.len() == rs[i].1 + 4,
    ensures
        index[rs[i].0].0 + 4 + index[rs[i].0].1 <= log.len(),
        record_at(log, index[rs[i].0]) == rs[i].2,
        read_outcome(Ok(record_at(log, index[rs[i].0]))) == read_outcome(Ok(rs[i].2)),
{
    lemma_joined_at(rs, i);
    assert(joined(rs.take(i)).len() <= log.len());
    assert(index[rs[i].0].0 as int == joined(rs.take(i)).len());
}

/// `index` points each of the first `n` records at where it lands, and
/// holds nothing else.
pub open spec fn index_of_prefix(vs: Seq<(usize, u32, Seq<u8>)>, n: int, index: Map<usize, (u64, u32)>) -> bool {
    &&& forall|t: int|
        0 <= t < n ==> index.contains_key((#[trigger] vs[t]).0) && index[vs[t].0] == (joined(vs.take(t)).len() as u64, vs[t].1)
    &&& forall|k: usize| #[trigger] index.contains_key(k) ==> exists|t: int| 0 <= t < n && (#[trigger] vs[t]).0 == k
}

/// Adding the next record's entry extends the prefix by one.
proof fn lemma_index_step(
    vs: Seq<(usize, u32, Seq<u8>)>,
    i: int,
    before: Map<usize, (u64, u32)>,
    after: Map<usize, (u64, u32)>,
    off: u64,
)
    requires
        distinct_ids(vs),
        0 <= i < vs.len(),
        off as int == joined(vs.take(i)).len(),
        index_of_prefix(vs, i, before),
        after == before.insert(vs[i].0, (off, vs[i].1)),
    ensures
        index_of_prefix(vs, i + 1, after),
{
    assert forall|k: usize| #[trigger] after.contains_key(k) implies exists|t: int| 0 <= t < i + 1 && (#[trigger] vs[t]).0 == k by {
        if k != vs[i].0 {
            assert(before.contains_key(k));
            let t = choose|t: int| 0 <= t < i && (#[trigger] vs[t]).0 == k;
        } else {
            assert(vs[i].0 == k);
        }
    }
    assert forall|t: int| 0 <= t < i + 1 implies after.contains_key((#[trigger] vs[t]).0) && after[vs[t].0] == (
        joined(vs.take(t)).len() as u64,
        vs[t].1,
    ) by {
        if t < i {
            assert(vs[t].0 != vs[i].0);
        }
    }
}

/// The log and index that compaction builds from the records it kept: the
/// records one after the other, and each entity pointed at its record,
/// keeping the record's payload length.
pub fn assemble_log(records: &Vec<(usize, u32, Vec<u8>)>) -> (r: (Vec<u8>, AHashMap<usize, (u64, u32)>))
    requires
        distinct_ids(kept_view(records@)),
        records@.len() <= MAX_ENTRIES,
        joined(kept_view(records@)).len() <= usize::MAX,
    ensures
        r.0@ == joined(kept_view(records@)),
        r.1.wf(),
        forall|i: int|
            0 <= i < records@.len() ==> r.1@.contains_key((#[trigger] records@[i]).0) && r.1@[records@[i].0] == (
                joined(kept_view(records@).take(i)).len() as u64,
                records@[i].1,
            ),
        forall|k: usize| #[trigger] r.1@.contains_key(k) ==> exists|i: int| 0 <= i < records@.len() && (#[trigger] records@[i]).0 == k,
{
    let ghost vs = kept_view(records@);
    let mut buf: Vec<u8> = Vec::new();
    let mut index: AHashMap<usize, (u64, u32)> = AHashMap::new();
    let mut i: usize = 0;
    proof {
        assert(vs.take(0) =~= Seq::<(usize, u32, Seq<u8>)>::empty());
    }
    while i < records.len()
        invariant
            vs == kept_view(records@),
            vs.len() == records@.len(),
            distinct_ids(vs),
            records@.len() <= MAX_ENTRIES,
            joined(vs).len() <= usize::MAX,
            i <= records@.len(),
            buf@ == joined(vs.take(i as int)),
            index.wf(),
            index@.len() <= i,
            index_of_prefix(vs, i as int, index@),
        decreases records@.len() - i,
    {
        let (id, len, bytes) = &records[i];
        proof {
            assert(vs[i as int] == (*id, *len, bytes@));
            lemma_joined_step(vs, i as int);
            index.lemma_finite();
            assert(!index@.contains_key(*id)) by {
                if index@.contains_key(*id) {
                    let t = choose|t: int| 0 <= t < i && (#[trigger] vs[t]).0 == *id;
                    assert(vs[t].0 != vs[i as int].0);
                }
            }
        }
        let ghost before = index@;
        let off = buf.len() as u64;
        index.insert(*id, (off, *len));
        put_bytes(&mut buf, bytes.as_slice());
        proof {
            lemma_index_step(vs, i as int, before, index@, off);
        }
        i = i + 1;
    }
    proof {
        assert(vs.take(i as int) =~= vs);
        assert forall|t: int| 0 <= t < records@.len() implies index@.contains_key((#[trigger] records@[t]).0) && index@[records@[t].0] == (
            joined(vs.take(t)).len() as u64,
            records@[t].1,
        ) by {
            assert(vs[t].0 == records@[t].0 && vs[t].1 == records@[t].1);
        }
        assert forall|k: usize| #[trigger] index@.contains_key(k) implies exists|t: int| 0 <= t < records@.len() && (#[trigger] records@[t]).0 == k by {
            let t = choose|t: int| 0 <= t < i && (#[trigger] vs[t]).0 == k;
            assert(records@[t].0 == vs[t].0);
        }
    }
    (buf, index)
}

/// The log of one partition: records appended through a file system, the
/// index of each entity's latest record as the writer sees it, and the
/// index that readers see, published by [`Storage::swap_disk_index`].
pub struct Storage<F: FileSystem> {
    pub base_path: String,
    pub fs: F,
    pub disk_index: RcuCell<AHashMap<usize, (u64, u32)>>,
    pub next_disk_index: AHashMap<usize, (u64, u32)>,
    pub disk_index_dirty: bool,
    pub current_offset: u64,
    /// The bytes the storage takes its log to hold before the append
    /// offset: the complete records read when it was opened or compacted,
    /// then each record it appended.
    pub log: Ghost<Seq<u8>>,
    /// The records handed to the file system to append to the log, in
    /// order, whether or not it appended them.
    pub appended: Ghost<Seq<Seq<u8>>>,
}

impl<F: FileSystem> Storage<F> {
    /// Both indexes are well formed and no larger than a map can grow.
    pub open spec fn wf(&self) -> bool {
        &&& self.disk_index@.wf()
        &&& self.next_disk_index.wf()
        &&& self.next_disk_index@.len() <= MAX_ENTRIES
        &&& self.current_offset as int == self.log@.len() % 0x1_0000_0000_0000_0000
    }

    /// A storage over `base_path`, whose indexes are rebuilt from the log
    /// already there and published to readers. The directory is not created
    /// here: the platform does that before handing the storage its file
    /// system.
    pub fn new(base_path: String, fs: F) -> (s: Self)
        ensures
            s.wf(),
            s.base_path@ == base_path@,
            !s.disk_index_dirty,
            s.disk_index@@ == s.next_disk_index@,
            s.next_disk_index@ == Map::<usize, (u64, u32)>::empty() && s.current_offset == 0 || exists|bytes: Seq<u8>|
                {
                    &&& bytes.len() <= MAX_INPUT
                    &&& (s.next_disk_index@, s.current_offset as int) == scan_records(bytes, 0, Map::empty())
                },
    {
        let mut s = Storage {
            base_path,
            fs,
            disk_index: new_atomic_ptr(AHashMap::new()),
            next_disk_index: AHashMap::new(),
            disk_index_dirty: false,
            current_offset: 0,
            log: Ghost(Seq::empty()),
            appended: Ghost(Seq::empty()),
        };
        s.rebuild_disk_index();
        s
    }

    /// Rebuilds the writer's index and the append offset from the log, when
    /// the log exists and can be read; then publishes the index if it was
    /// marked changed.
    pub fn rebuild_disk_index(&mut self)
        requires
            old(self).wf(),
        ensures
            final(self).wf(),
            final(self).base_path == old(self).base_path,
            *final(self) == *old(self) || exists|bytes: Seq<u8>|
                {
                    &&& bytes.len() <= MAX_INPUT
                    &&& (final(self).next_disk_index@, final(self).current_offset as int) == scan_records(
                        bytes,
                        0,
                        Map::empty(),
                    )
                    &&& !final(self).disk_index_dirty
                    &&& final(self).disk_index@@ == final(self).next_disk_index@
                },
    {
        let path = entities_path(self.base_path.as_str());
        if !self.fs.file_exists(path.as_str()) {
            return;
        }
        match self.fs.read(path.as_str()) {
            Ok(bytes) => {
                if bytes.len() <= MAX_INPUT {
                    let (map, end) = scan_index(bytes.as_slice());
                    self.next_disk_index = map;
                    self.current_offset = end;
                    proof {
                        lemma_scan_end_within(bytes@, 0, Map::empty());
                        self.log@ = bytes@.take(end as int);
                    }
                    self.disk_index_dirty = true;
                    let _ = self.swap_disk_index();
                    assert((self.next_disk_index@, self.current_offset as int) == scan_records(bytes@, 0, Map::empty()));
                    assert(!self.disk_index_dirty);
                    assert(self.disk_index@@ == self.next_disk_index@);
                }
            },
            Err(_) => {},
        }
    }

    /// Whether `entity_id` is in the published index.
    pub fn contains(&self, entity_id: usize) -> (b: bool)
        requires
            self.wf(),
        ensures
            b == self.disk_index@@.contains_key(entity_id),
    {
        load_ref(&self.disk_index).contains_key(&entity_id)
    }

    /// Publishes the writer's index if it changed since it was last
    /// published, and returns the index it replaces.
    pub fn swap_disk_index(&mut self) -> (r: Option<AHashMap<usize, (u64, u32)>>)
        requires
            old(self).wf(),
        ensures
            final(self).wf(),
            final(self).base_path == old(self).base_path,
            final(self).next_disk_index == old(self).next_disk_index,
            final(self).current_offset == old(self).current_offset,
            final(self).log == old(self).log,
            final(self).appended == old(self).appended,
            !final(self).disk_index_dirty,
            old(self).disk_index_dirty ==> r == Some(old(self).disk_index@) && final(self).disk_index@@
                == old(self).next_disk_index@,
            !old(self).disk_index_dirty ==> r is None && final(self).disk_index == old(self).disk_index,
    {
        if !self.disk_index_dirty {
            return None;
        }
        self.disk_index_dirty = false;
        let next = copy_index(&self.next_disk_index);
        Some(swap_ptr(&mut self.disk_index, next))
    }

    /// Appends `data` to the log as a record and points the writer's index
    /// at it. On a failed append nothing changes.
    pub fn write_entity(&mut self, data: &EntityData) -> (r: Result<(), String>)
        requires
            old(self).wf(),
            data.wf(),
            old(self).next_disk_index@.len() < MAX_ENTRIES,
        ensures
            final(self).wf(),
            final(self).base_path == old(self).base_path,
            final(self).disk_index == old(self).disk_index,
            r is Ok ==> exists|bytes: Seq<u8>|
                {
                    &&& encodes_entity(data.view().0, data.view().1, bytes)
                    &&& final(self).next_disk_index@ == old(self).next_disk_index@.insert(
                        data.entity_id,
                        (old(self).current_offset, bytes.len() as u32),
                    )
                    &&& final(self).current_offset as int == (old(self).current_offset + 4 + bytes.len())
                        % 0x1_0000_0000_0000_0000
                    &&& final(self).disk_index_dirty
                    &&& final(self).log@ == old(self).log@ + frame(bytes)
                    &&& old(self).log@.len() + 4 + bytes.len() < 0x1_0000_0000_0000_0000 && bytes.len() <= u32::MAX
                        && attrs_encodable(data.view().1) ==> holds_entity(
                        final(self).log@,
                        final(self).next_disk_index@,
                        data.entity_id,
                        data.view(),
                    )
                },
            exists|bytes: Seq<u8>|
                {
                    &&& encodes_entity(data.view().0, data.view().1, bytes)
                    &&& final(self).appended@ == old(self).appended@.push(frame(bytes))
                    &&& r is Ok ==> final(self).log@ == old(self).log@ + frame(bytes)
                    &&& r is Ok && old(self).log@.len() + 4 + bytes.len() < 0x1_0000_0000_0000_0000 && bytes.len()
                        <= u32::MAX && attrs_encodable(data.view().1) ==> holds_entity(
                        final(self).log@,
                        final(self).next_disk_index@,
                        data.entity_id,
                        data.view(),
                    )
                },
            r is Ok ==> forall|k: usize, it: (usize, AttrsView)|
                k != data.entity_id && #[trigger] holds_entity(old(self).log@, old(self).next_disk_index@, k, it)
                    ==> holds_entity(final(self).log@, final(self).next_disk_index@, k, it),
            r is Err ==> final(self).next_disk_index == old(self).next_disk_index
                && final(self).current_offset == old(self).current_offset && final(self).log == old(self).log
                && final(self).disk_index_dirty == old(self).disk_index_dirty,
    {
        let path = entities_path(self.base_path.as_str());
        let bytes = data.encode();
        let record = frame_record(bytes.as_slice());
        let offset = self.current_offset;
        proof {
            self.appended@ = self.appended@.push(record@);
        }
        match self.fs.append(path.as_str(), record.as_slice()) {
            Ok(()) => {},
            Err(e) => return Err(e.to_message()),
        }
        self.current_offset = offset.wrapping_add(record.len() as u64);
        proof {
            lemma_le32_len(bytes@.len() as u32);
            self.next_disk_index.lemma_finite();
        }
        self.next_disk_index.insert(data.entity_id, (offset, bytes.len() as u32));
        self.disk_index_dirty = true;
        let ghost old_log = self.log@;
        proof {
            self.log@ = old_log + record@;
            assert(old_log.len() + record@.len() == self.log@.len());
            assert(self.current_offset as int == self.log@.len() % 0x1_0000_0000_0000_0000) by (nonlinear_arith)
                requires
                    self.current_offset as int == (offset + record@.len()) % 0x1_0000_0000_0000_0000,
                    offset as int == old_log.len() % 0x1_0000_0000_0000_0000,
                    self.log@.len() == old_log.len() + record@.len(),
            ;
            assert forall|k: usize, it: (usize, AttrsView)|
                k != data.entity_id && #[trigger] holds_entity(old_log, old(self).next_disk_index@, k, it) implies holds_entity(
                self.log@,
                self.next_disk_index@,
                k,
                it,
            ) by {
                assert(record_at(self.log@, self.next_disk_index@[k]) =~= record_at(old_log, old(self).next_disk_index@[k]));
            }
            if old_log.len() + record@.len() < 0x1_0000_0000_0000_0000 && bytes@.len() <= u32::MAX && attrs_encodable(
                data.view().1,
            ) {
                assert(offset as int == old_log.len());
                lemma_record_roundtrip(data.entity_id, data.view().1, bytes@);
                assert(record_at(self.log@, self.next_disk_index@[data.entity_id]) =~= record@);
            }
        }
        proof {
            assert(self.next_disk_index@.dom() =~= old(self).next_disk_index@.dom().insert(data.entity_id));
            assert(record@.len() == 4 + bytes@.len());
            assert(self.current_offset as int == (offset + 4 + bytes@.len()) % 0x1_0000_0000_0000_0000);
            assert(encodes_entity(data.view().0, data.view().1, bytes@));
        }
        Ok(())
    }

    /// Reads the latest record of `entity_id` through the published index.
    /// An id missing from the index gives `"Not found in disk index"`; an
    /// entry whose record length cannot be addressed gives
    /// `"Truncated"`; otherwise the record's `4 + len` bytes are read
    /// from its offset and [`read_result`] turns the file system's answer
    /// into the entity or an error.
    pub fn read_entity(&self, entity_id: usize) -> (r: Result<EntityData, String>)
        requires
            self.wf(),
        ensures
            !self.disk_index@@.contains_key(entity_id) ==> (r matches Err(e) && e@
                == "Not found in disk index"@),
            self.disk_index@@.contains_key(entity_id) && self.disk_index@@[entity_id].1 as usize > usize::MAX - 4 ==> (
            r matches Err(e) && e@ == "Truncated"@),
            self.disk_index@@.contains_key(entity_id) && self.disk_index@@[entity_id].1 as usize <= usize::MAX - 4
                ==> exists|f: Result<Seq<u8>, IoError>| #[trigger] gives(r, read_outcome(f)),
            r matches Ok(d) ==> d.wf() && self.disk_index@@.contains_key(entity_id) && exists|bytes: Seq<u8>|
                #[trigger] decodes_record(bytes, d.view()),
    {
        let index = load_ref(&self.disk_index);
        let (offset, len) = match index.get(&entity_id) {
            Some(v) => *v,
            None => return Err("Not found in disk index".to_string()),
        };
        let path = entities_path(self.base_path.as_str());
        let want = len as usize;
        if want > usize::MAX - 4 {
            return Err("Truncated".to_string());
        }
        let fetched = self.fs.read_range(path.as_str(), offset, want + 4);
        let ghost fv = fetched_view(fetched);
        let r = read_result(fetched);
        proof {
            assert(gives(r, read_outcome(fv)));
            if r is Ok {
                let b = fv->Ok_0;
                assert(decodes_record(b, r->Ok_0.view()));
            }
        }
        r
    }

    /// Reads every entity of the block around `entity_id` that can be read:
    /// the ids of [`block_ids`], in order, skipping those that fail.
    pub fn read_block(&self, entity_id: usize, block_size: usize) -> (r: Vec<EntityData>)
        requires
            self.wf(),
            block_size > 0,
            (entity_id / block_size) * block_size + 2 * block_size <= usize::MAX,
        ensures
            r@.len() <= 2 * block_size,
            forall|j: int| 0 <= j < r@.len() ==> read_back(#[trigger] r@[j]),
    {
        let ids = block_ids(entity_id, block_size);
        let mut out: Vec<EntityData> = Vec::new();
        let mut i: usize = 0;
        while i < ids.len()
            invariant
                self.wf(),
                ids@.len() == 2 * block_size,
                i <= ids@.len(),
                out@.len() <= i,
                forall|j: int| 0 <= j < out@.len() ==> read_back(#[trigger] out@[j]),
            decreases ids@.len() - i,
        {
            match self.read_entity(ids[i]) {
                Ok(d) => {
                    proof {
                        assert(read_back(d));
                    }
                    out.push(d);
                },
                Err(_) => {},
            }
            i = i + 1;
        }
        out
    }

    /// Records reach the file system as they are written, so there is
    /// nothing to flush.
    pub fn flush(&self) -> (r: Result<(), String>)
        ensures
            r is Ok,
    {
        Ok(())
    }

    /// Rewrites the log with only the latest record of each entity in the
    /// writer's index, replacing the log in one write. Each record before
    /// the append offset is read back; those that cannot be read, or come
    /// back empty, are dropped. The new log is the records kept, one after
    /// the other, as [`assemble_log`] builds it; on success the index points
    /// each kept entity at its record there, keeping its payload length, and
    /// is marked changed. On a failed write nothing changes.
    #[verifier::rlimit(100)]
    #[verifier::spinoff_prover]
    pub fn compact(&mut self) -> (r: Result<(), String>)
        requires
            old(self).wf(),
        ensures
            final(self).wf(),
            final(self).base_path == old(self).base_path,
            final(self).disk_index == old(self).disk_index,
            r is Ok ==> {
                &&& exists|rs: Seq<(usize, u32, Seq<u8>)>|
                    compacted_from(old(self).next_disk_index@, final(self).next_disk_index@, final(self).log@, rs)
                &&& exists|file: Seq<u8>, rs: Seq<(usize, u32, Seq<u8>)>|
                    {
                        &&& compacted_from(old(self).next_disk_index@, final(self).next_disk_index@, final(self).log@, rs)
                        &&& cut_from(file, old(self).next_disk_index@, rs)
                        &&& forall|id: usize|
                            #[trigger] old(self).next_disk_index@.contains_key(id) && keepable(
                                old(self).next_disk_index@[id],
                                old(self).current_offset,
                                file.len(),
                            ) ==> final(self).next_disk_index@.contains_key(id) || final(self).log@.len() + 4
                                + old(self).next_disk_index@[id].1 > usize::MAX
                    }
                &&& final(self).current_offset as int == final(self).log@.len()
                &&& final(self).next_disk_index@.dom().subset_of(old(self).next_disk_index@.dom())
                &&& forall|id: usize| #[trigger] final(self).next_disk_index@.contains_key(id)
                    ==> final(self).next_disk_index@[id].1 == old(self).next_disk_index@[id].1
                    && final(self).next_disk_index@[id].0 < final(self).current_offset
                &&& final(self).disk_index_dirty
            },
            r is Err ==> final(self).next_disk_index == old(self).next_disk_index
                && final(self).current_offset == old(self).current_offset && final(self).log == old(self).log
                && final(self).disk_index_dirty == old(self).disk_index_dirty,
    {
        let path = entities_path(self.base_path.as_str());
        let log_end = self.current_offset;
        let ghost old_index = self.next_disk_index@;
        let whole: Vec<u8> = match self.fs.read(path.as_str()) {
            Ok(b) => b,
            Err(_) => Vec::new(),
        };
        proof {
            assert(whole@.len() == whole.len());
        }
        let kept = cut_records(&self.next_disk_index, &whole, log_end);
        proof {
            self.next_disk_index.lemma_finite();
        }
        let (new_log, new_index) = assemble_log(&kept);
        match self.fs.write(path.as_str(), new_log.as_slice()) {
            Ok(()) => {},
            Err(e) => return Err(e.to_message()),
        }
        let ghost rs = kept_view(kept@);
        proof {
            lemma_compact_outcome(old_index, kept@, whole@, new_log@, new_index@, log_end);
        }
        self.next_disk_index = new_index;
        self.current_offset = new_log.len() as u64;
        self.disk_index_dirty = true;
        proof {
            self.log@ = new_log@;
            assert(compacted_from(old_index, self.next_disk_index@, self.log@, rs));
            assert(cut_from(whole@, old_index, rs));
            assert(new_log@.len() <= usize::MAX);
            assert(self.current_offset as int == self.log@.len());
        }
        Ok(())
    }
}

} // verus!
