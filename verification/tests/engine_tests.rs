use cddb::audit::{AuditService, FORMAT_VERSION, MISSING_PATH};
use cddb::bloom::SimpleBloom;
use cddb::commands::LogLevel;
use cddb::dispatcher::{storage_path, try_send, RouteTable, PARTITION_NOT_FOUND};
use cddb::ops::{ops_insert_command, ops_params};
use cddb::commands::{Attributes, ColumnValue, PartitionCommand, WriteCommand};
use cddb::facade::{pick_blob, pick_str, CdDBBlobStore, CdDBPartition, CdDBStore, CdDBStrStore, QueryDispatch};
use cddb::hashing::HashSeeds;
use cddb::index::{tokenize, InvertedIndex};
use cddb::map::AHashMap;
use cddb::partition::{keep_gathering, Partition, MAX_GATHER};
use cddb::platform::{Backoff, FileSystem, IoError, MessageSender, NullFileSystem};
use cddb::query::{QueryNode, QueryResult, QuerySession};
use cddb::queue::BoundedQueue;
use cddb::storage::EntityData;
use cddb::wal::{flush_wait_micros, DurabilityMode, FlushConfigBuilder, NoopWal, WalMode};
use std::collections::HashMap;
use std::sync::Mutex;

struct MemFs {
    files: Mutex<HashMap<String, Vec<u8>>>,
}

impl FileSystem for MemFs {
    fn write(&self, path: &str, data: &[u8]) -> Result<(), IoError> {
        self.files.lock().unwrap().insert(path.to_string(), data.to_vec());
        Ok(())
    }
    fn read(&self, path: &str) -> Result<Vec<u8>, IoError> {
        self.files.lock().unwrap().get(path).cloned().ok_or(IoError::NotFound)
    }
    fn append(&self, path: &str, data: &[u8]) -> Result<(), IoError> {
        self.files.lock().unwrap().entry(path.to_string()).or_default().extend_from_slice(data);
        Ok(())
    }
    fn file_exists(&self, path: &str) -> bool {
        self.files.lock().unwrap().contains_key(path)
    }
    fn create_dir_all(&self, _path: &str) -> Result<(), IoError> {
        Ok(())
    }
    fn read_dir(&self, _path: &str) -> Result<Vec<String>, IoError> {
        Ok(vec![])
    }
}

fn memfs() -> MemFs {
    MemFs { files: Mutex::new(HashMap::new()) }
}

fn typed(pairs: Vec<(&str, ColumnValue)>) -> AHashMap<String, ColumnValue> {
    let mut m = AHashMap::new();
    for (k, v) in pairs {
        m.insert(k.to_string(), v);
    }
    m
}

fn read_int<const N: usize>(p: &Partition<MemFs, N>, id: usize, attr: &str) -> Option<u32> {
    let disk = AHashMap::new();
    let s = QuerySession::new(&p.shared_pointers, &p.columns, &p.bloom_filter, &disk);
    match s.get_int(id, attr) {
        cddb::query::Lookup::Found(v) => Some(v),
        _ => None,
    }
}

fn read_str<const N: usize>(p: &Partition<MemFs, N>, id: usize, attr: &str) -> Option<String> {
    let disk = AHashMap::new();
    let s = QuerySession::new(&p.shared_pointers, &p.columns, &p.bloom_filter, &disk);
    match s.get_str(id, attr) {
        cddb::query::Lookup::Found(v) => Some(v),
        _ => None,
    }
}

#[test]
fn test_partition_apply_commands() {
    let mut partition = Partition::<MemFs, 512>::new("test_part".to_string(), memfs(), 1);

    partition.apply_write(WriteCommand::Delete { entity_id: 10 });

    let attrs = typed(vec![
        ("s", ColumnValue::Str("a".to_string())),
        ("i", ColumnValue::Int(1)),
        ("b", ColumnValue::Blob(vec![1])),
    ]);
    partition.apply_write(WriteCommand::insert(20, attrs));

    partition.rebuild_bloom_filter();

    let mut attrs_str = Attributes::new();
    attrs_str.insert("s2".to_string(), "b".to_string());
    let mut attrs_int = Attributes::new();
    attrs_int.insert("i2".to_string(), 2u32);
    let mut attrs_blob = Attributes::new();
    attrs_blob.insert("b2".to_string(), vec![2u8]);
    let entity_data = EntityData { entity_id: 30, attributes: attrs_str, attributes_int: attrs_int, attributes_blob: attrs_blob };
    partition.storage.write_entity(&entity_data).unwrap();
    partition.storage.swap_disk_index();
    let loaded = partition.load_entity(30);
    assert!(loaded.is_some());

    partition.replay_wal(&[]);

    let batch = PartitionCommand::Write(WriteCommand::BatchInsert(vec![(
        40,
        Attributes::new(),
        Attributes::new(),
        Attributes::new(),
    )]));
    partition.apply_batch_commands(vec![batch]);
}

#[test]
fn partition_read_your_write_and_delete() {
    let mut p = Partition::<MemFs, 64>::new("p".to_string(), memfs(), 0);
    p.apply_write(WriteCommand::insert(
        5,
        typed(vec![("age", ColumnValue::Int(30)), ("name", ColumnValue::Str("eve".to_string()))]),
    ));
    assert_eq!(read_int(&p, 5, "age"), Some(30));
    assert_eq!(read_str(&p, 5, "name"), Some("eve".to_string()));
    assert!(p.bloom_filter.contains(5));

    p.apply_write(WriteCommand::insert(5, typed(vec![("age", ColumnValue::Int(31))])));
    assert_eq!(read_int(&p, 5, "age"), Some(31));

    p.apply_write(WriteCommand::Delete { entity_id: 5 });
    assert_eq!(read_int(&p, 5, "age"), None);
}

#[test]
fn partition_loads_from_disk_and_replays_wal() {
    let mut p = Partition::<MemFs, 64>::new("p".to_string(), memfs(), 0);
    let mut ints = Attributes::new();
    ints.insert("v".to_string(), 77u32);
    let cmd = WriteCommand::Insert { entity_id: 9, attributes: Attributes::new(), attributes_int: ints, attributes_blob: Attributes::new() };
    let wal_bytes = cddb::wal::encode_wal_batch(&[&cmd]);
    p.replay_wal(&wal_bytes);
    assert_eq!(read_int(&p, 9, "v"), Some(77));

    let replies = p.commit_batch(&NoopWal, vec![PartitionCommand::Write(WriteCommand::Delete { entity_id: 9 })]);
    assert!(replies.is_empty());
    assert_eq!(read_int(&p, 9, "v"), None);
    assert!(p.load_entity(12345).is_none());
}

#[test]
fn bloom_reports_every_inserted_item() {
    let mut b = SimpleBloom::<16>::new();
    for i in 0..200usize {
        b.insert(i * 7919);
    }
    for i in 0..200usize {
        assert!(b.contains(i * 7919));
    }
    b.clear();
    assert!(!b.contains(0));
}

#[test]
fn queue_is_fifo_and_bounded() {
    let mut q = BoundedQueue::new(4);
    for i in 0..4u32 {
        assert!(q.push(i).is_ok());
    }
    assert_eq!(q.push(99), Err(99));
    assert_eq!(q.pop(), Some(0));
    assert!(q.push(4).is_ok());
    assert_eq!(q.pop(), Some(1));
    assert_eq!(q.pop(), Some(2));
    assert_eq!(q.pop(), Some(3));
    assert_eq!(q.pop(), Some(4));
    assert_eq!(q.pop(), None);
}

#[test]
fn tokenize_lowercases_and_splits() {
    assert_eq!(tokenize("Hello, World! x-y"), vec!["hello", "world", "xy"]);
    assert!(tokenize("  ,, ").is_empty());
}

#[test]
fn inverted_index_or_and_and_remove() {
    let mut ix = InvertedIndex::new();
    ix.insert_document(3, "red apple");
    ix.insert_document(1, "green apple");
    ix.insert_document(2, "red car");
    assert_eq!(ix.search_or("apple"), vec![1, 3]);
    assert_eq!(ix.search_or("green car"), vec![1, 2]);
    assert_eq!(ix.search_and("red apple"), vec![3]);
    assert_eq!(ix.search_and("blue"), Vec::<usize>::new());
    ix.remove_document(3, "red apple");
    assert_eq!(ix.search_or("apple"), vec![1]);
    assert_eq!(ix.search_or("red"), vec![2]);
}

#[test]
fn hashing_is_stable_per_seed() {
    let s = HashSeeds::from_words(1, 2, 3, 4);
    assert_eq!(s.hash_str("abc"), s.hash_str("abc"));
    assert_ne!(s.hash_str("abc"), s.hash_str("abd"));
    assert_ne!(s.hash_u64(1), 1);
    let t = HashSeeds::from_words(5, 6, 7, 8);
    assert_ne!(s.hash_u64(42), t.hash_u64(42));
}

#[test]
fn flush_config_builder_and_modes() {
    let c = FlushConfigBuilder::new().build();
    assert_eq!(c.batch_size_bytes, 204428);
    assert_eq!(c.ttl_micros, 10_000);
    assert!(!c.expert_mode);
    let c = FlushConfigBuilder::new().with_batch_size(10).with_ttl_micros(5).unlock_expert_danger_zone().build();
    assert_eq!((c.batch_size_bytes, c.ttl_micros, c.expert_mode), (10, 5, true));

    assert!(!WalMode::Sync.is_async());
    assert!(WalMode::Async100ms.is_async());
    assert_eq!(WalMode::Async100ms.flush_parameters(), (1000, 65536));
    let custom = WalMode::Custom {
        durability: DurabilityMode::Relaxed(std::time::Duration::from_millis(1)),
        flush: FlushConfigBuilder::new().with_batch_size(7).with_ttl_micros(2000).build(),
    };
    assert!(custom.is_async());
    assert_eq!(custom.flush_parameters(), (2000, 7));
    assert_eq!(flush_wait_micros(10, 100, 300, 1000), 700);
    assert_eq!(flush_wait_micros(100, 100, 300, 1000), 0);
    assert_eq!(flush_wait_micros(10, 100, 1000, 1000), 0);
}

#[test]
fn backoff_completes_after_the_spin_limit() {
    let mut b = Backoff::new();
    let mut n = 0;
    while !b.is_completed() {
        b.snooze();
        n += 1;
    }
    assert_eq!(n, 101);
}

#[test]
fn audit_service_answers() {
    let fs = memfs();
    assert_eq!(AuditService::verify_integrity(&fs, "db"), Err(MISSING_PATH.to_string()));
    fs.write("db", &[]).unwrap();
    assert_eq!(AuditService::verify_integrity(&fs, "db"), Ok(true));
    assert_eq!(AuditService::verify_integrity(&NullFileSystem, "x"), Ok(true));
    let m = AuditService::inspect_metadata("db").unwrap();
    assert_eq!(m.version, FORMAT_VERSION);
    assert_eq!(m.total_entities, 0);
    assert!(m.partitions.is_empty());
    assert!(AuditService::reverse_search_blob("db", &[1, 2]).unwrap().is_empty());
}

struct Outbox {
    sent: Mutex<Vec<String>>,
    fail: bool,
}

impl MessageSender for Outbox {
    fn send(&self, cmd: PartitionCommand) -> Result<(), String> {
        if self.fail {
            return Err("closed".to_string());
        }
        let tag = match &cmd {
            PartitionCommand::Write(WriteCommand::Insert { entity_id, .. }) => format!("insert {}", entity_id),
            PartitionCommand::Write(WriteCommand::InsertFast { entity_id, epoch, .. }) => format!("fast {} {}", entity_id, epoch),
            PartitionCommand::Write(WriteCommand::Delete { entity_id }) => format!("delete {}", entity_id),
            other => other.debug_string(),
        };
        self.sent.lock().unwrap().push(tag);
        Ok(())
    }
}

struct Answers(Vec<QueryResult>);

impl QueryDispatch for Answers {
    fn execute_batch(&self, _partition: &str, _nodes: &[QueryNode]) -> Vec<QueryResult> {
        self.0.clone()
    }
}

#[test]
fn pick_keeps_the_last_match() {
    let rs = vec![QueryResult::Str("a".to_string()), QueryResult::Int(1), QueryResult::Str("b".to_string())];
    assert_eq!(pick_str(rs), Some("b".to_string()));
    assert_eq!(pick_str(vec![QueryResult::Int(3)]), None);
    assert_eq!(pick_blob(vec![QueryResult::Blob(vec![1]), QueryResult::NoResult]), Some(vec![1]));
}

#[test]
fn facade_stores_send_and_read() {
    let answers = Answers(vec![QueryResult::Str("v".to_string())]);
    let part = CdDBPartition { name: "p".to_string(), writer: Outbox { sent: Mutex::new(vec![]), fail: false }, dispatcher: &answers };
    assert!(part.write_epoch_snapshot(4, 9, 1, vec![1]).is_ok());
    let store = CdDBStrStore::new(part);
    assert!(store.put(1, "k", "v".to_string()).is_ok());
    assert_eq!(store.get(1, "k"), Some("v".to_string()));
    assert!(store.delete(1).is_ok());

    let blobs = Answers(vec![QueryResult::Blob(vec![7, 7])]);
    let failing = CdDBPartition { name: "q".to_string(), writer: Outbox { sent: Mutex::new(vec![]), fail: true }, dispatcher: &blobs };
    let bstore = CdDBBlobStore::new(failing);
    assert_eq!(bstore.put(1, "k", vec![1]), Err("Failed to send command"));
    assert_eq!(bstore.get(1, "k"), Some(vec![7, 7]));
}

#[test]
fn route_table_assigns_ids_and_paths() {
    let mut t = RouteTable::new(Some("base".to_string()));
    assert_eq!(t.register("Food.Apple".to_string()), (0, "base/Food/Apple.data".to_string()));
    assert_eq!(t.register("users".to_string()), (1, "base/users.data".to_string()));
    assert_eq!(t.len(), 2);
    assert_eq!(t.get_route("users").unwrap().partition_id, 1);
    assert!(t.get_route("nope").is_none());
    assert_eq!(t.require_partition("Food.Apple"), Ok(0));
    assert_eq!(t.require_partition("nope"), Err(PARTITION_NOT_FOUND));
    assert_eq!(storage_path(&None, "a.b"), "data/a.b");
}

#[test]
fn try_send_fails_when_full() {
    let mut q = BoundedQueue::new(2);
    assert!(try_send(&mut q, WriteCommand::Delete { entity_id: 1 }).is_ok());
    assert!(try_send(&mut q, WriteCommand::Delete { entity_id: 2 }).is_ok());
    assert_eq!(try_send(&mut q, WriteCommand::Delete { entity_id: 3 }), Err("Full"));
    assert!(matches!(q.pop(), Some(PartitionCommand::Write(WriteCommand::Delete { entity_id: 1 }))));
}

#[test]
fn ops_params_fold_timestamp_and_name_level() {
    let params = ops_params(
        (u32::MAX as u64) + 5,
        "web".to_string(),
        "n1".to_string(),
        LogLevel::Warn,
        "ok".to_string(),
        500,
        600,
        200,
    );
    assert_eq!(params.0.get("level"), Some(&"Warn".to_string()));
    assert_eq!(params.0.get("service"), Some(&"web".to_string()));
    assert_eq!(params.1.get("timestamp"), Some(&5));
    assert_eq!(params.1.get("cpu_milli"), Some(&500));
    match ops_insert_command(10, params) {
        WriteCommand::Insert { entity_id, attributes_int, attributes_blob, .. } => {
            assert_eq!(entity_id, 10);
            assert_eq!(attributes_int.get("response_time"), Some(&200));
            assert!(attributes_blob.is_empty());
        },
        _ => panic!("wrong command"),
    }
}

#[test]
fn documented_batch_query_gives_int_then_int_list() {
    let mut p = Partition::<MemFs, 64>::new("users".to_string(), memfs(), 0);
    let mut attrs_int = Attributes::new();
    attrs_int.insert("score".to_string(), 100u32);
    p.apply_write(WriteCommand::Insert {
        entity_id: 1,
        attributes: Attributes::new(),
        attributes_int: attrs_int,
        attributes_blob: Attributes::new(),
    });
    let disk = AHashMap::new();
    let session = QuerySession::new(&p.shared_pointers, &p.columns, &p.bloom_filter, &disk);
    let nodes = [QueryNode::Get { entity_id: 1, attr: "score" }, QueryNode::Scan { attr: "score" }];
    let (results, stopped) = session.execute_batch_from(&nodes, 0);
    assert!(stopped.is_none());
    assert_eq!(format!("{:?}", results), "[Int(100), IntList([100])]");
}

#[test]
fn bloom_counts_its_set_bits() {
    let mut b = SimpleBloom::<4>::new();
    assert_eq!(b.total_bits(), 256);
    assert_eq!(b.count_set_bits(), 0);
    b.insert(77);
    let n = b.count_set_bits();
    assert!(n >= 1 && n <= 4);
    b.clear();
    assert_eq!(b.count_set_bits(), 0);
}

#[test]
fn keep_gathering_stops_at_limit_or_shutdown() {
    let w = PartitionCommand::Write(WriteCommand::Delete { entity_id: 1 });
    assert!(keep_gathering(0, &w));
    assert!(!keep_gathering(MAX_GATHER, &w));
    assert!(!keep_gathering(3, &PartitionCommand::Shutdown));
}

#[test]
fn writes_to_other_entities_leave_an_entity_as_written() {
    let mut p = Partition::<MemFs, 64>::new("p".to_string(), memfs(), 0);
    p.apply_write(WriteCommand::insert(1, typed(vec![("age", ColumnValue::Int(7)), ("name", ColumnValue::Str("ann".to_string()))])));
    let batch = vec![
        PartitionCommand::Write(WriteCommand::insert(2, typed(vec![("age", ColumnValue::Int(8))]))),
        PartitionCommand::Write(WriteCommand::Delete { entity_id: 3 }),
        PartitionCommand::Write(WriteCommand::BatchInsert(vec![(4, Attributes::new(), Attributes::new(), Attributes::new())])),
    ];
    assert!(p.apply_batch_commands(batch).is_empty());
    assert_eq!(read_int(&p, 1, "age"), Some(7));
    assert_eq!(read_str(&p, 1, "name"), Some("ann".to_string()));
    assert_eq!(read_int(&p, 2, "age"), Some(8));
    // The last write to an entity is the one read back.
    p.apply_write(WriteCommand::insert(1, typed(vec![("age", ColumnValue::Int(9))])));
    assert_eq!(read_int(&p, 1, "age"), Some(9));
    assert_eq!(read_str(&p, 1, "name"), None);
}

#[test]
fn batch_insert_keeps_the_last_item_of_each_entity() {
    let mut p = Partition::<MemFs, 64>::new("p".to_string(), memfs(), 0);
    let mut a = Attributes::new();
    a.insert("v".to_string(), 1u32);
    let mut b = Attributes::new();
    b.insert("v".to_string(), 2u32);
    let mut c = Attributes::new();
    c.insert("v".to_string(), 3u32);
    p.apply_write(WriteCommand::BatchInsert(vec![
        (5, Attributes::new(), a, Attributes::new()),
        (6, Attributes::new(), b, Attributes::new()),
        (5, Attributes::new(), c, Attributes::new()),
    ]));
    assert_eq!(read_int(&p, 5, "v"), Some(3));
    assert_eq!(read_int(&p, 6, "v"), Some(2));
}

#[test]
fn committed_batch_reads_back_the_last_write_of_each_entity() {
    let mut p = Partition::<MemFs, 64>::new("p".to_string(), memfs(), 0);
    let batch = vec![
        PartitionCommand::Write(WriteCommand::insert(1, typed(vec![("v", ColumnValue::Int(10))]))),
        PartitionCommand::Write(WriteCommand::insert(2, typed(vec![("v", ColumnValue::Int(20))]))),
        PartitionCommand::Write(WriteCommand::insert(1, typed(vec![("v", ColumnValue::Int(11))]))),
        PartitionCommand::Write(WriteCommand::Delete { entity_id: 2 }),
        PartitionCommand::Write(WriteCommand::InsertFast { entity_id: 3, epoch: 4, record_type: 5, payload: std::sync::Arc::new(vec![6u8]) }),
    ];
    assert!(p.commit_batch(&NoopWal, batch).is_empty());
    assert_eq!(read_int(&p, 1, "v"), Some(11));
    assert_eq!(read_int(&p, 2, "v"), None);
    assert_eq!(read_int(&p, 3, "epoch"), Some(4));
    assert_eq!(read_int(&p, 3, "type"), Some(5));
}

#[test]
fn replayed_log_reads_back_its_last_write_of_each_entity() {
    let mut p = Partition::<MemFs, 64>::new("p".to_string(), memfs(), 0);
    let first = WriteCommand::insert(7, typed(vec![("v", ColumnValue::Int(1))]));
    let second = WriteCommand::insert(8, typed(vec![("v", ColumnValue::Int(2))]));
    let third = WriteCommand::insert(7, typed(vec![("v", ColumnValue::Int(3))]));
    let gone = WriteCommand::Delete { entity_id: 8 };
    let bytes = cddb::wal::encode_wal_batch(&[&first, &second, &third, &gone]);
    p.replay_wal(&bytes);
    assert_eq!(read_int(&p, 7, "v"), Some(3));
    assert_eq!(read_int(&p, 8, "v"), None);
}

#[test]
fn search_and_needs_every_token_of_the_query() {
    let mut ix = InvertedIndex::new();
    ix.insert_document(1, "Hello, World!");
    ix.insert_document(2, "hello rust");
    assert_eq!(ix.search_and("hello"), vec![1, 2]);
    assert_eq!(ix.search_and("hello zzz"), Vec::<usize>::new());
    assert_eq!(ix.search_and(""), Vec::<usize>::new());
}

struct NoReply;

impl cddb::commands::ResponseSender<Option<cddb::column::MultiVectorPointer>> for NoReply {
    fn send(&self, _val: Option<cddb::column::MultiVectorPointer>) -> Result<(), String> {
        Ok(())
    }
}

#[test]
fn batch_applies_writes_after_a_load_request() {
    let mut p = Partition::<MemFs, 64>::new("p".to_string(), memfs(), 0);
    let batch = vec![
        PartitionCommand::Write(WriteCommand::insert(1, typed(vec![("v", ColumnValue::Int(1))]))),
        PartitionCommand::InternalLoad { entity_id: 500, response_tx: Box::new(NoReply) },
        PartitionCommand::Write(WriteCommand::insert(2, typed(vec![("v", ColumnValue::Int(2))]))),
        PartitionCommand::Write(WriteCommand::insert(1, typed(vec![("v", ColumnValue::Int(3))]))),
    ];
    let replies = p.commit_batch(&NoopWal, batch);
    assert_eq!(replies.len(), 1);
    assert!(replies[0].1.is_none());
    assert_eq!(read_int(&p, 1, "v"), Some(3));
    assert_eq!(read_int(&p, 2, "v"), Some(2));
}

#[test]
fn tokenize_splits_exactly_on_unicode_white_space() {
    for n in 0u32..=0x10FFFF {
        if let Some(c) = char::from_u32(n) {
            let text = format!("a{}b", c);
            assert_eq!(tokenize(&text).len() == 2, c.is_whitespace(), "{:x}", n);
        }
    }
    assert_eq!(tokenize("a\u{3000}b\u{2028}c\u{85}d"), vec!["a", "b", "c", "d"]);
}
