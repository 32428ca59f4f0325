use cddb::archive::{serialize_command, to_hex, ColdStorageArchiver};
use cddb::commands::{Attributes, PartitionCommand, WriteCommand};
use cddb::facade::QueryDispatch;
use cddb::platform::MessageSender;
use cddb::query::{QueryNode, QueryResult};
use cddb::stores::{bytes_to_i32s, decode_block, i32s_to_bytes, temporal_id, MemoryMesh, SimpleKvStore, TieredTensorCache};
use sha2::Digest;
use std::sync::{Arc, Mutex};

#[derive(Clone, Default)]
struct Outbox {
    sent: Arc<Mutex<Vec<(usize, String)>>>,
}

impl MessageSender for Outbox {
    fn send(&self, cmd: PartitionCommand) -> Result<(), String> {
        let entry = match &cmd {
            PartitionCommand::Write(WriteCommand::Insert { entity_id, .. }) => (*entity_id, "insert".to_string()),
            PartitionCommand::Write(WriteCommand::InsertFast { entity_id, .. }) => (*entity_id, "fast".to_string()),
            PartitionCommand::Write(WriteCommand::Delete { entity_id }) => (*entity_id, "delete".to_string()),
            other => (0, other.debug_string()),
        };
        self.sent.lock().unwrap().push(entry);
        Ok(())
    }
}

/// Answers every lookup with the same results, and records the partitions
/// and entities asked for.
struct Fixed {
    answer: Vec<QueryResult>,
    asked: Mutex<Vec<(String, usize, String)>>,
}

impl QueryDispatch for Fixed {
    fn execute_batch(&self, partition: &str, nodes: &[QueryNode]) -> Vec<QueryResult> {
        for n in nodes {
            if let QueryNode::Get { entity_id, attr } = n {
                self.asked.lock().unwrap().push((partition.to_string(), *entity_id, attr.to_string()));
            }
        }
        self.answer.clone()
    }
}

impl QueryDispatch for &Fixed {
    fn execute_batch(&self, partition: &str, nodes: &[QueryNode]) -> Vec<QueryResult> {
        (**self).execute_batch(partition, nodes)
    }
}

fn fixed(answer: Vec<QueryResult>) -> Fixed {
    Fixed { answer, asked: Mutex::new(vec![]) }
}

#[test]
fn serialize_command_forms() {
    let mut expect = b"DELETE:".to_vec();
    expect.extend_from_slice(&5u64.to_le_bytes());
    assert_eq!(serialize_command(&WriteCommand::Delete { entity_id: 5 }), expect);
    let batch = WriteCommand::BatchInsert(vec![(1, Attributes::new(), Attributes::new(), Attributes::new())]);
    let mut expect = b"BATCH_INSERT:".to_vec();
    expect.extend_from_slice(&1u32.to_le_bytes());
    assert_eq!(serialize_command(&batch), expect);
}

#[test]
fn to_hex_is_lower_case_two_digits_per_byte() {
    assert_eq!(to_hex(&[0x0f, 0xa0, 0x00]), "0fa000");
    assert_eq!(to_hex(&[]), "");
}

#[test]
fn seal_batch_hashes_timestamp_signer_and_writes() {
    let a = ColdStorageArchiver::new("archive.log", "node-1");
    let cmds = vec![WriteCommand::Delete { entity_id: 2 }, WriteCommand::Delete { entity_id: 3 }];
    let rec = a.seal_batch(&cmds, 1234);

    let mut input = 1234u64.to_le_bytes().to_vec();
    input.extend_from_slice(b"node-1");
    let s1 = serialize_command(&cmds[0]);
    let s2 = serialize_command(&cmds[1]);
    input.extend_from_slice(&s1);
    input.extend_from_slice(&s2);
    let expected = format!("{:x}", sha2::Sha256::digest(&input));
    assert_eq!(rec.hash_hex, expected);

    let mut entry = format!("=== ARCHIVE BATCH ===\nTimestamp: 1234\nSigner: node-1\nHash: {}\n", expected).into_bytes();
    entry.extend_from_slice(&s1);
    entry.push(b'\n');
    entry.extend_from_slice(&s2);
    entry.push(b'\n');
    entry.extend_from_slice(b"=====================\n\n");
    assert_eq!(rec.entry, entry);
}

#[test]
fn sha256_of_an_empty_batch_is_known() {
    let a = ColdStorageArchiver::new("a", "");
    let rec = a.seal_batch(&[], 0);
    // SHA-256 of eight zero bytes.
    assert_eq!(rec.hash_hex, format!("{:x}", sha2::Sha256::digest([0u8; 8])));
    assert_eq!(rec.hash_hex.len(), 64);
}

#[test]
fn tensor_bytes_round_trip() {
    let v = vec![1, -1, i32::MIN, i32::MAX, 0];
    let b = i32s_to_bytes(&v);
    assert_eq!(b.len(), 20);
    assert_eq!(&b[0..4], &[1, 0, 0, 0]);
    assert_eq!(&b[4..8], &[0xff, 0xff, 0xff, 0xff]);
    assert_eq!(bytes_to_i32s(&b), v);
    assert_eq!(bytes_to_i32s(&[1, 0, 0, 0, 9]), vec![1]);
}

#[test]
fn decode_block_reads_the_last_blob() {
    let rs = vec![QueryResult::Blob(vec![2, 0, 0, 0]), QueryResult::Blob(vec![3, 0, 0, 0, 4, 0, 0, 0])];
    assert_eq!(decode_block(rs), Some(vec![3, 4]));
    assert_eq!(decode_block(vec![QueryResult::NoResult]), None);
}

#[test]
fn temporal_ids_pack_workflow_and_epoch() {
    assert_eq!(temporal_id(1, 2), (1usize << 32) | 2);
    assert_eq!(temporal_id(0, 7), 7);
}

#[test]
fn simple_kv_store_round_trip_through_dispatcher() {
    let out = Outbox::default();
    let db = fixed(vec![QueryResult::Blob(vec![1, 2, 3])]);
    let store = SimpleKvStore::new(&db, out.clone(), "default".to_string());
    store.put(42, vec![1, 2, 3]).unwrap();
    assert_eq!(store.get(42), Some(vec![1, 2, 3]));
    store.delete(42).unwrap();
    assert_eq!(*out.sent.lock().unwrap(), vec![(42, "insert".to_string()), (42, "delete".to_string())]);
    assert_eq!(db.asked.lock().unwrap()[0], ("default".to_string(), 42, "data".to_string()));
}

#[test]
fn memory_mesh_reads_and_writes_the_right_partitions() {
    let wf = Outbox::default();
    let tl = Outbox::default();
    let db = fixed(vec![QueryResult::Str("{}".to_string()), QueryResult::Blob(vec![9])]);
    let mesh = MemoryMesh::new(&db, wf.clone(), tl.clone());
    mesh.persist_workflow(3, "{}");
    mesh.persist_temporal_state(1, 2, vec![9]);
    assert_eq!(mesh.get_workflow(3), Some("{}".to_string()));
    assert_eq!(mesh.get_temporal_state(1, 2), Some(vec![9]));
    mesh.cache_intent_success(5, "ok".to_string());
    assert!(mesh.get_cached_intent(5).is_none());
    assert_eq!(*wf.sent.lock().unwrap(), vec![(3, "insert".to_string())]);
    assert_eq!(*tl.sent.lock().unwrap(), vec![((1usize << 32) | 2, "fast".to_string())]);
    let asked = db.asked.lock().unwrap();
    assert_eq!(asked[0], ("workflows".to_string(), 3, "workflow_data".to_string()));
    assert_eq!(asked[1], ("temporal_log".to_string(), (1usize << 32) | 2, "payload".to_string()));
}

#[test]
fn tensor_cache_keys_stores_and_fetches_blocks() {
    let out = Outbox::default();
    let db = fixed(vec![QueryResult::Blob(i32s_to_bytes(&[5, -6]))]);
    let cache = TieredTensorCache::new(7, 16, 4, &db, out.clone());
    assert_eq!(cache.block_key(3), (7u64 << 32) | 3);
    cache.insert_block(3, vec![5, -6]).unwrap();
    assert_eq!(cache.fetch_block(3), Some(vec![5, -6]));
    cache.invalidate_blocks(1, 2);
    let sent = out.sent.lock().unwrap();
    assert_eq!(sent[0], (((7u64 << 32) | 3) as usize, "insert".to_string()));
    assert_eq!(sent[1], (((7u64 << 32) | 1) as usize, "delete".to_string()));
    assert_eq!(sent[2], (((7u64 << 32) | 2) as usize, "delete".to_string()));
    assert_eq!(sent.len(), 3);
}
