//! Stores built on partitions: a key-value store of blobs, a memory for
//! agents' workflows and state snapshots, and a tiered cache of tensor
//! blocks. Each writes through a partition's channel and reads through the
//! dispatcher.

use vstd::prelude::*;
use crate::cache::HitCache;
use crate::codec::{get_u32, le32, put_u32, u32_at};
use crate::commands::{Attributes, PartitionCommand, WriteCommand};
use crate::facade::{blob_insert_command, get_query, last_blob, pick_blob, pick_str, results_view, QueryDispatch, SEND_FAILED};
use crate::platform::MessageSender;
use crate::query::QueryResult;
use std::sync::Arc;

verus! {

/// Sends a write on `writer`.
fn send_write<W: MessageSender>(writer: &W, cmd: WriteCommand) -> (r: Result<(), &'static str>)
    ensures
        r matches Err(e) ==> e@ == SEND_FAILED@,
{
    match writer.send(PartitionCommand::Write(cmd)) {
        Ok(()) => Ok(()),
        Err(_) => Err(SEND_FAILED),
    }
}

/// Asks the dispatcher for attribute `attr` of entity `entity_id` of the
/// partition `partition`.
fn get_from<D: QueryDispatch>(db: &D, partition: &str, entity_id: usize, attr: &str) -> Vec<QueryResult> {
    let nodes = get_query(entity_id, attr);
    db.execute_batch(partition, nodes.as_slice())
}

/// A store of blobs by integer key, kept as attribute `data` of the
/// entity of that id.
pub struct SimpleKvStore<W: MessageSender, D: QueryDispatch> {
    dispatcher: D,
    writer: W,
    partition_name: String,
}

impl<W: MessageSender, D: QueryDispatch> SimpleKvStore<W, D> {
    /// A store over the partition `partition_name`, writing on `writer`.
    pub fn new(dispatcher: D, writer: W, partition_name: String) -> (s: Self)
        ensures
            s.partition_name() == partition_name@,
    {
        SimpleKvStore { dispatcher, writer, partition_name }
    }

    pub closed spec fn partition_name(&self) -> Seq<char> {
        self.partition_name@
    }

    /// Stores `value` under `key`.
    pub fn put(&self, key: usize, value: Vec<u8>) -> (r: Result<(), &'static str>)
        ensures
            r matches Err(e) ==> e@ == SEND_FAILED@,
    {
        send_write(&self.writer, blob_insert_command(key, "data", value))
    }

    /// The value under `key`: the last blob the dispatcher answers with.
    pub fn get(&self, key: usize) -> Option<Vec<u8>> {
        let results = get_from(&self.dispatcher, self.partition_name.as_str(), key, "data");
        pick_blob(results)
    }

    /// Removes `key`.
    pub fn delete(&self, key: usize) -> (r: Result<(), &'static str>)
        ensures
            r matches Err(e) ==> e@ == SEND_FAILED@,
    {
        send_write(&self.writer, WriteCommand::Delete { entity_id: key })
    }
}

/// The entity of the snapshot of workflow `workflow_id` at `epoch`: the
/// workflow in the high 32 bits, the epoch in the low ones.
pub open spec fn spec_temporal_id(workflow_id: u32, epoch: u32) -> usize {
    (((workflow_id as u64) << 32u64) | (epoch as u64)) as usize
}

/// The entity of the snapshot of workflow `workflow_id` at `epoch`.
pub fn temporal_id(workflow_id: u32, epoch: u32) -> (r: usize)
    ensures
        r == spec_temporal_id(workflow_id, epoch),
        usize::BITS == 64 ==> r as int == workflow_id as int * 0x1_0000_0000 + epoch as int,
{
    let k: u64 = ((workflow_id as u64) << 32u64) | (epoch as u64);
    proof {
        assert(((workflow_id as u64) << 32u64) | (epoch as u64) == workflow_id as u64 * 0x1_0000_0000u64 + epoch as u64)
            by (bit_vector);
    }
    k as usize
}

/// The name of the partition of workflows.
pub const WORKFLOWS: &'static str = "workflows";

/// The name of the partition of state snapshots.
pub const TEMPORAL_LOG: &'static str = "temporal_log";

/// Workflows and state snapshots of agents, with a cache of the results of
/// intents that succeeded.
pub struct MemoryMesh<W: MessageSender, D: QueryDispatch> {
    pub cache: HitCache<u64, Arc<String>>,
    db: D,
    workflows_writer: W,
    temporal_writer: W,
}

impl<W: MessageSender, D: QueryDispatch> MemoryMesh<W, D> {
    /// A mesh over the dispatcher `db`, writing workflows and snapshots on
    /// the given channels.
    pub fn new(db: D, workflows_writer: W, temporal_writer: W) -> (m: Self)
        ensures
            m.dispatcher() == db,
            m.writers() == (workflows_writer, temporal_writer),
    {
        MemoryMesh { cache: HitCache::new(), db, workflows_writer, temporal_writer }
    }

    /// The dispatcher that answers the mesh's reads.
    pub closed spec fn dispatcher(&self) -> D {
        self.db
    }

    /// The channels of the workflows and of the state snapshots.
    pub closed spec fn writers(&self) -> (W, W) {
        (self.workflows_writer, self.temporal_writer)
    }

    /// Remembers the result of an intent that succeeded.
    pub fn cache_intent_success(&self, intent_hash: u64, result: String) {
        self.cache.insert(intent_hash, Arc::new(result));
    }

    /// The remembered result of an intent; the cache keeps nothing without
    /// a tiered cache engine, so there is none.
    pub fn get_cached_intent(&self, intent_hash: u64) -> (r: Option<Arc<String>>)
        ensures
            r is None,
    {
        self.cache.get(&intent_hash)
    }

    /// Stores a workflow as the string attribute `workflow_data` of entity
    /// `entity_id`; a failed send is dropped.
    pub fn persist_workflow(&self, entity_id: u32, workflow_json: &str) {
        let mut attributes: Attributes<String> = Attributes::new();
        attributes.insert("workflow_data".to_string(), workflow_json.to_string());
        let cmd = WriteCommand::Insert {
            entity_id: entity_id as usize,
            attributes,
            attributes_int: Attributes::new(),
            attributes_blob: Attributes::new(),
        };
        let _ = send_write(&self.workflows_writer, cmd);
    }

    /// The stored workflow of entity `entity_id`: the last string the
    /// dispatcher answers with.
    pub fn get_workflow(&self, entity_id: u32) -> Option<String> {
        let results = get_from(&self.db, WORKFLOWS, entity_id as usize, "workflow_data");
        pick_str(results)
    }

    /// Stores a state snapshot of workflow `workflow_id` at `epoch`; a
    /// failed send is dropped.
    pub fn persist_temporal_state(&self, workflow_id: u32, epoch: u32, state_payload: Vec<u8>) {
        let cmd = WriteCommand::InsertFast {
            entity_id: temporal_id(workflow_id, epoch),
            epoch,
            record_type: 1,
            payload: Arc::new(state_payload),
        };
        let _ = send_write(&self.temporal_writer, cmd);
    }

    /// The stored snapshot of workflow `workflow_id` at `epoch`: the last
    /// blob the dispatcher answers with.
    pub fn get_temporal_state(&self, workflow_id: u32, epoch: u32) -> Option<Vec<u8>> {
        let results = get_from(&self.db, TEMPORAL_LOG, temporal_id(workflow_id, epoch), "payload");
        pick_blob(results)
    }
}

/// The bytes of a tensor block: each value as four little-endian bytes.
pub open spec fn tensor_bytes(v: Seq<i32>) -> Seq<u8>
    decreases v.len(),
{
    if v.len() == 0 {
        Seq::empty()
    } else {
        tensor_bytes(v.drop_last()) + le32(v.last() as u32)
    }
}

/// The bytes of a tensor block have four per value, value `i` at `4 * i`.
pub proof fn lemma_tensor_bytes(v: Seq<i32>)
    ensures
        tensor_bytes(v).len() == 4 * v.len(),
        forall|i: int| 0 <= i < v.len() ==> #[trigger] tensor_bytes(v).subrange(4 * i, 4 * i + 4) == le32(v[i] as u32),
    decreases v.len(),
{
    vstd::bytes::lemma_auto_spec_u32_to_from_le_bytes();
    if v.len() > 0 {
        let w = v.drop_last();
        lemma_tensor_bytes(w);
        let t = tensor_bytes(v);
        assert forall|i: int| 0 <= i < v.len() implies #[trigger] t.subrange(4 * i, 4 * i + 4) == le32(v[i] as u32) by {
            if i < w.len() {
                assert(t.subrange(4 * i, 4 * i + 4) =~= tensor_bytes(w).subrange(4 * i, 4 * i + 4));
            } else {
                assert(t.subrange(4 * i, 4 * i + 4) =~= le32(v.last() as u32));
            }
        }
    }
}

/// The values of a tensor block stored as `bytes`: one per four bytes,
/// read little-endian; trailing bytes that make no whole value are
/// ignored.
pub open spec fn tensor_values(bytes: Seq<u8>) -> Seq<i32> {
    Seq::new(bytes.len() / 4, |i: int| u32_at(bytes, 4 * i) as i32)
}

/// The bytes of a tensor block.
pub fn i32s_to_bytes(v: &[i32]) -> (r: Vec<u8>)
    ensures
        r@ == tensor_bytes(v@),
{
    let mut out: Vec<u8> = Vec::new();
    let mut i: usize = 0;
    while i < v.len()
        invariant
            i <= v@.len(),
            out@ == tensor_bytes(v@.take(i as int)),
        decreases v@.len() - i,
    {
        put_u32(&mut out, v[i] as u32);
        proof {
            assert(v@.take(i + 1).drop_last() =~= v@.take(i as int));
        }
        i = i + 1;
    }
    proof {
        assert(v@.take(v@.len() as int) =~= v@);
    }
    out
}

/// The values of a tensor block stored as `bytes`.
pub fn bytes_to_i32s(bytes: &[u8]) -> (r: Vec<i32>)
    ensures
        r@ == tensor_values(bytes@),
{
    let blen = bytes.len();
    let n = blen / 4;
    let mut out: Vec<i32> = Vec::new();
    let mut i: usize = 0;
    let mut pos: usize = 0;
    while i < n
        invariant
            blen == bytes@.len(),
            n == bytes@.len() / 4,
            i <= n,
            pos == 4 * i,
            out@.len() == i,
            forall|j: int| 0 <= j < i ==> out@[j] == #[trigger] tensor_values(bytes@)[j],
        decreases n - i,
    {
        assert(pos + 4 <= bytes@.len()) by (nonlinear_arith)
            requires
                i < n,
                n == bytes@.len() / 4,
                pos == 4 * i,
        ;
        let x = get_u32(bytes, pos).unwrap();
        out.push(x as i32);
        i = i + 1;
        pos = pos + 4;
    }
    proof {
        assert(out@ =~= tensor_values(bytes@));
    }
    out
}

/// Reading back the bytes of a tensor block gives the block.
pub proof fn lemma_tensor_roundtrip(v: Seq<i32>)
    ensures
        tensor_values(tensor_bytes(v)) == v,
{
    lemma_tensor_bytes(v);
    vstd::bytes::lemma_auto_spec_u32_to_from_le_bytes();
    let t = tensor_bytes(v);
    assert forall|i: int| 0 <= i < v.len() implies #[trigger] tensor_values(t)[i] == v[i] by {
        assert(t.subrange(4 * i, 4 * i + 4) == le32(v[i] as u32));
        let x = v[i];
        assert((x as u32) as i32 == x) by (bit_vector);
    }
    assert(tensor_values(t) =~= v);
}

/// The key of block `block_idx` of session `session_id`: the session in
/// the high 32 bits, or-ed with the block's index.
pub open spec fn spec_block_key(session_id: u32, block_idx: usize) -> u64 {
    ((session_id as u64) << 32u64) | (block_idx as u64)
}

/// The name of the partition of tensor blocks.
pub const TENSOR_STORAGE: &'static str = "tensor_storage";

/// The block read from the results of a lookup: the values of the last
/// blob among them.
pub fn decode_block(results: Vec<QueryResult>) -> (r: Option<Vec<i32>>)
    ensures
        match r {
            Some(v) => exists|b: Seq<u8>| last_blob(results_view(results@)) == Some(b) && v@ == tensor_values(b),
            None => last_blob(results_view(results@)) is None,
        },
{
    match pick_blob(results) {
        Some(b) => Some(bytes_to_i32s(b.as_slice())),
        None => None,
    }
}

/// Tensor blocks of one session, cached in memory and stored in a
/// partition.
pub struct TieredTensorCache<W: MessageSender, D: QueryDispatch> {
    pub cache: HitCache<u64, Vec<i32>>,
    db: D,
    kv_writer: W,
    pub block_size: usize,
    pub hidden_dim: usize,
    session_id: u32,
}

impl<W: MessageSender, D: QueryDispatch> TieredTensorCache<W, D> {
    /// A cache for session `session_id` over the dispatcher `db`, storing
    /// blocks on `kv_writer`.
    pub fn new(session_id: u32, hidden_dim: usize, block_size: usize, db: D, kv_writer: W) -> (c: Self)
        ensures
            c.session() == session_id,
            c.dims() == (block_size, hidden_dim),
    {
        TieredTensorCache { cache: HitCache::new(), db, kv_writer, block_size, hidden_dim, session_id }
    }

    pub closed spec fn session(&self) -> u32 {
        self.session_id
    }

    /// The block size and the hidden dimension.
    pub closed spec fn dims(&self) -> (usize, usize) {
        (self.block_size, self.hidden_dim)
    }

    /// The key of block `block_idx`.
    pub fn block_key(&self, block_idx: usize) -> (k: u64)
        ensures
            k == spec_block_key(self.session(), block_idx),
            block_idx < 0x1_0000_0000 ==> k as int == self.session() as int * 0x1_0000_0000 + block_idx as int,
    {
        let s = self.session_id as u64;
        let b = block_idx as u64;
        proof {
            assert(b < 0x1_0000_0000u64 ==> (s << 32u64) | b == s * 0x1_0000_0000u64 + b) by (bit_vector)
                requires
                    s < 0x1_0000_0000u64,
            ;
        }
        (s << 32u64) | b
    }

    /// Sends block `block_idx` to the partition, as the blob `tensor` of the
    /// entity of its key.
    fn persist_to_disk(&self, block_idx: usize, payload: &Vec<i32>) -> (r: Result<(), &'static str>)
        ensures
            r matches Err(e) ==> e@ == SEND_FAILED@,
    {
        let bytes = i32s_to_bytes(payload.as_slice());
        let key = self.block_key(block_idx);
        send_write(&self.kv_writer, blob_insert_command(key as usize, "tensor", bytes))
    }

    /// Caches and stores a block of the system prompt.
    pub fn insert_system_prompt(&self, block_idx: usize, tensor_data: Vec<i32>) -> (r: Result<(), &'static str>)
        ensures
            r matches Err(e) ==> e@ == SEND_FAILED@,
    {
        self.insert_block(block_idx, tensor_data)
    }

    /// Caches and stores a block.
    pub fn insert_block(&self, block_idx: usize, tensor_data: Vec<i32>) -> (r: Result<(), &'static str>)
        ensures
            r matches Err(e) ==> e@ == SEND_FAILED@,
    {
        let key = self.block_key(block_idx);
        let r = self.persist_to_disk(block_idx, &tensor_data);
        self.cache.insert(key, tensor_data);
        r
    }

    /// Block `block_idx`: from the cache, else read from the partition and
    /// cached.
    pub fn fetch_block(&self, block_idx: usize) -> Option<Vec<i32>> {
        let key = self.block_key(block_idx);
        match self.cache.get(&key) {
            Some(block) => {
                return Some(block);
            },
            None => {},
        }
        let results = get_from(&self.db, TENSOR_STORAGE, key as usize, "tensor");
        match decode_block(results) {
            Some(v) => {
                self.cache.insert(key, v.clone());
                Some(v)
            },
            None => None,
        }
    }

    /// Deletes the stored blocks `start_block ..= end_block`; failed sends
    /// are dropped.
    pub fn invalidate_blocks(&self, start_block: usize, end_block: usize) {
        if start_block > end_block {
            return;
        }
        let mut idx = start_block;
        loop
            invariant
                start_block <= idx <= end_block,
            decreases end_block - idx,
        {
            let key = self.block_key(idx);
            let _ = send_write(&self.kv_writer, WriteCommand::Delete { entity_id: key as usize });
            if idx == end_block {
                return;
            }
            idx = idx + 1;
        }
    }
}

} // verus!
