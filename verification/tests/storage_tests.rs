use cddb::commands::{Attributes, WriteCommand};
use cddb::platform::{FileSystem, IoError, NullFileSystem, slice_range};
use cddb::storage::{EntityData, Storage, assemble_log, block_ids, decode_record, frame_record, peek_entity_id, read_result};
use cddb::wal::{NoopWal, StdWal, WalMode, WalProvider, encode_wal_batch, replay_commands};
use std::collections::HashMap;
use std::sync::Mutex;

/// A file system held in memory, for the tests.
struct MemFs {
    files: Mutex<HashMap<String, Vec<u8>>>,
}

impl MemFs {
    fn new() -> Self {
        MemFs { files: Mutex::new(HashMap::new()) }
    }
}

impl FileSystem for MemFs {
    fn write(&self, path: &str, data: &[u8]) -> Result<(), IoError> {
        self.files.lock().unwrap().insert(path.to_string(), data.to_vec());
        Ok(())
    }
    fn read(&self, path: &str) -> Result<Vec<u8>, IoError> {
        self.files.lock().unwrap().get(path).cloned().ok_or(IoError::NotFound)
    }
    fn append(&self, path: &str, data: &[u8]) -> Result<(), IoError> {
        self.files.lock().unwrap().entry(path.to_string()).or_default().extend_from_slice(data);
        Ok(())
    }
    fn file_exists(&self, path: &str) -> bool {
        self.files.lock().unwrap().contains_key(path)
    }
    fn create_dir_all(&self, _path: &str) -> Result<(), IoError> {
        Ok(())
    }
    fn read_dir(&self, _path: &str) -> Result<Vec<String>, IoError> {
        Ok(self.files.lock().unwrap().keys().cloned().collect())
    }
}

fn entity(id: usize) -> EntityData {
    EntityData {
        entity_id: id,
        attributes: Attributes::new(),
        attributes_int: Attributes::new(),
        attributes_blob: Attributes::new(),
    }
}

#[test]
fn test_filesystem_default_impls() {
    struct DummyFS;
    impl FileSystem for DummyFS {
        fn write(&self, _path: &str, _data: &[u8]) -> Result<(), IoError> {
            Ok(())
        }
        fn read(&self, path: &str) -> Result<Vec<u8>, IoError> {
            if path == "ok" {
                Ok(vec![1, 2, 3])
            } else {
                Err(IoError::Other("err"))
            }
        }
        fn append(&self, _path: &str, _data: &[u8]) -> Result<(), IoError> {
            Ok(())
        }
        fn file_exists(&self, _path: &str) -> bool {
            false
        }
        fn create_dir_all(&self, _path: &str) -> Result<(), IoError> {
            Ok(())
        }
        fn read_dir(&self, _path: &str) -> Result<Vec<String>, IoError> {
            Ok(vec![])
        }
    }

    let fs = DummyFS;
    assert_eq!(fs.read_range("ok", 0, 2).unwrap(), vec![1, 2]);
    assert!(fs.read_range("ok", 0, 5).is_err());
    assert_eq!(fs.file_size("ok").unwrap(), 3);
    assert!(fs.file_size("err").is_err());

    assert!(fs.write("test", &[]).is_ok());
    assert!(fs.append("test", &[]).is_ok());
    assert!(!fs.file_exists("test"));
    assert!(fs.create_dir_all("test").is_ok());
    assert!(fs.read_dir("test").unwrap().is_empty());
}

#[test]
fn slice_range_edges() {
    assert_eq!(slice_range(&[1, 2, 3], 1, 2).unwrap(), vec![2, 3]);
    assert_eq!(slice_range(&[1, 2, 3], 3, 0).unwrap(), Vec::<u8>::new());
    assert_eq!(slice_range(&[1, 2, 3], 2, 2), Err(IoError::Other("Read out of bounds")));
}

#[test]
fn io_error_messages() {
    assert_eq!(IoError::NotFound.to_message(), "NotFound");
    assert_eq!(IoError::Other("boom").to_message(), "boom");
}

#[test]
fn test_entity_data_encode_decode() {
    let mut attrs = Attributes::new();
    attrs.insert("name".to_string(), "foo".to_string());
    let mut attrs_int = Attributes::new();
    attrs_int.insert("age".to_string(), 42u32);
    let mut attrs_blob = Attributes::new();
    attrs_blob.insert("data".to_string(), vec![1u8, 2, 3]);

    let data = EntityData {
        entity_id: 42,
        attributes: attrs,
        attributes_int: attrs_int,
        attributes_blob: attrs_blob,
    };

    let buf = data.encode();
    let dec = EntityData::decode(&buf).unwrap();
    assert_eq!(dec.entity_id, 42);
    assert_eq!(dec.attributes.get("name").unwrap(), "foo");
    assert_eq!(dec.attributes_int.get("age").unwrap(), &42);
    assert_eq!(dec.attributes_blob.get("data").unwrap(), &vec![1, 2, 3]);
}

#[test]
fn storage_test_entity_data_encode_decode() {
    let mut attrs = Attributes::new();
    attrs.insert("name".to_string(), "foo".to_string());
    let mut attrs_int = Attributes::new();
    attrs_int.insert("age".to_string(), 42u32);
    let mut attrs_blob = Attributes::new();
    attrs_blob.insert("data".to_string(), vec![1u8, 2, 3]);

    let data = EntityData {
        entity_id: 42,
        attributes: attrs,
        attributes_int: attrs_int,
        attributes_blob: attrs_blob,
    };

    let buf = data.encode();
    let dec = EntityData::decode(&buf).unwrap();
    assert_eq!(dec.entity_id, 42);
    assert_eq!(dec.attributes.get("name").unwrap(), "foo");
    assert_eq!(dec.attributes_int.get("age").unwrap(), &42);
    assert_eq!(dec.attributes_blob.get("data").unwrap(), &vec![1, 2, 3]);
}

#[test]
fn test_peek_entity_id_short() {
    assert!(peek_entity_id(&[1, 2, 3]).is_none());
}

#[test]
fn peek_reads_little_endian_id() {
    assert_eq!(peek_entity_id(&[5, 1, 0, 0, 0, 0, 0, 0, 9]), Some(261));
}

#[test]
fn frame_prefixes_length() {
    assert_eq!(frame_record(&[7, 8]), vec![2, 0, 0, 0, 7, 8]);
}

#[test]
fn decode_record_errors() {
    assert_eq!(decode_record(&[1, 0]).err().unwrap(), "Truncated");
    assert_eq!(decode_record(&[9, 0, 0, 0, 1]).err().unwrap(), "Truncated");
    assert_eq!(decode_record(&[3, 0, 0, 0, 1, 2, 3]).err().unwrap(), "Decode failed");
    let rec = frame_record(&entity(4).encode());
    assert_eq!(decode_record(&rec).unwrap().entity_id, 4);
}

#[test]
fn block_ids_are_the_aligned_block() {
    assert_eq!(block_ids(12, 5), vec![10, 11, 12, 13, 14, 15, 16, 17, 18, 19]);
    assert_eq!(block_ids(3, 1), vec![3, 4]);
}

#[test]
fn storage_read_write_in_memory() {
    let mut storage = Storage::new("db".to_string(), MemFs::new());
    storage.write_entity(&entity(10)).unwrap();
    assert!(!storage.contains(10));
    storage.swap_disk_index();
    assert!(storage.contains(10));
    assert_eq!(storage.read_entity(10).unwrap().entity_id, 10);
    assert_eq!(storage.read_entity(999).err().unwrap(), "Not found in disk index");

    let block = storage.read_block(10, 5);
    assert!(!block.is_empty());
    assert_eq!(block[0].entity_id, 10);
    assert!(storage.read_block(999, 5).is_empty());

    storage.compact().unwrap();
    assert_eq!(storage.read_entity(10).unwrap().entity_id, 10);
    assert!(storage.flush().is_ok());
    let Storage { fs, .. } = storage;
    assert!(fs.file_exists("db/entities.bin"));
    assert!(!fs.file_exists("db"));
}

#[test]
fn storage_latest_write_wins_and_survives_reopen() {
    let fs = MemFs::new();
    let mut storage = Storage::new("db".to_string(), fs);
    let mut first = entity(1);
    first.attributes_int.insert("v".to_string(), 1);
    let mut second = entity(1);
    second.attributes_int.insert("v".to_string(), 2);
    storage.write_entity(&first).unwrap();
    storage.write_entity(&second).unwrap();
    storage.swap_disk_index();
    assert_eq!(storage.read_entity(1).unwrap().attributes_int.get("v"), Some(&2));

    let Storage { fs, .. } = storage;
    let mut reopened = Storage::new("db".to_string(), fs);
    // Reopening rebuilds the index from the log and publishes it.
    assert!(reopened.contains(1));
    assert_eq!(reopened.read_entity(1).unwrap().attributes_int.get("v"), Some(&2));
    reopened.write_entity(&entity(2)).unwrap();
    reopened.swap_disk_index();
    assert_eq!(reopened.read_entity(1).unwrap().attributes_int.get("v"), Some(&2));
    assert_eq!(reopened.read_entity(2).unwrap().entity_id, 2);
}

#[test]
fn storage_ignores_truncated_log() {
    let fs = MemFs::new();
    fs.write("db/entities.bin", &[0xFF, 0, 0, 0, 1]).unwrap();
    let storage = Storage::new("db".to_string(), fs);
    assert!(storage.read_entity(1).is_err());
}

#[test]
fn storage_over_null_file_system() {
    let mut storage = Storage::new("nowhere".to_string(), NullFileSystem);
    assert!(storage.write_entity(&entity(3)).is_ok());
    assert!(storage.flush().is_ok());
}

#[test]
fn test_noop_wal() {
    let wal = NoopWal;
    let cmd = WriteCommand::Delete { entity_id: 1 };
    assert!(wal.append(&cmd).is_ok());
    assert!(wal.append_batch(&[&cmd]).is_ok());
    assert!(wal.checkpoint().is_ok());
    assert_eq!(wal.read_all().unwrap(), Vec::<u8>::new());
}

#[test]
fn wal_test_noop_wal() {
    let wal = NoopWal;
    let cmd = WriteCommand::Delete { entity_id: 1 };
    assert!(wal.append(&cmd).is_ok());
    assert!(wal.append_batch(&[&cmd]).is_ok());
    assert!(wal.checkpoint().is_ok());
    assert_eq!(wal.read_all().unwrap(), Vec::<u8>::new());
}

#[test]
fn std_wal_replays_what_was_appended() {
    let wal = StdWal::new("wal.log".to_string(), MemFs::new(), WalMode::Sync);
    let a = WriteCommand::Delete { entity_id: 1 };
    let b = WriteCommand::Delete { entity_id: 2 };
    let c = WriteCommand::Delete { entity_id: 3 };
    wal.append(&a).unwrap();
    wal.append_batch(&[&b, &c]).unwrap();
    let bytes = wal.read_all().unwrap();
    let cmds = replay_commands(&bytes);
    let ids: Vec<usize> = cmds
        .iter()
        .map(|c| match c {
            WriteCommand::Delete { entity_id } => *entity_id,
            _ => usize::MAX,
        })
        .collect();
    assert_eq!(ids, vec![1, 2, 3]);
}

#[test]
fn wal_replay_skips_a_torn_tail() {
    let a = WriteCommand::Delete { entity_id: 8 };
    let b = WriteCommand::Delete { entity_id: 9 };
    let mut bytes = encode_wal_batch(&[&a, &b]);
    bytes.pop();
    let cmds = replay_commands(&bytes);
    assert_eq!(cmds.len(), 1);
    assert!(matches!(cmds[0], WriteCommand::Delete { entity_id: 8 }));
    assert!(encode_wal_batch(&[]).is_empty());
}

#[test]
fn storage_opened_on_an_existing_log_reads_its_entities() {
    let fs = MemFs::new();
    let payload = entity(7).encode();
    assert_eq!(payload.len(), 20);
    let mut file = (payload.len() as u32).to_le_bytes().to_vec();
    file.extend_from_slice(&payload);
    fs.write("db/entities.bin", &file).unwrap();
    let storage = Storage::new("db".to_string(), fs);
    assert!(storage.contains(7));
    assert_eq!(storage.read_entity(7).unwrap().entity_id, 7);
    assert_eq!(storage.current_offset, 24);
}

#[test]
fn read_result_reports_file_system_and_record_errors() {
    assert_eq!(read_result(Err(IoError::NotFound)).err().unwrap(), "NotFound");
    assert_eq!(read_result(Ok(vec![1, 2])).err().unwrap(), "Truncated");
    assert_eq!(read_result(Ok(vec![9, 0, 0, 0, 1])).err().unwrap(), "Truncated");
    let payload = entity(5).encode();
    let mut record = (payload.len() as u32).to_le_bytes().to_vec();
    record.extend_from_slice(&payload);
    assert_eq!(read_result(Ok(record)).unwrap().entity_id, 5);
}

#[test]
fn assemble_log_places_records_one_after_another() {
    let (log, index) = assemble_log(&vec![(3, 1, vec![1, 0, 0, 0, 9]), (4, 2, vec![2, 0, 0, 0, 8, 7])]);
    assert_eq!(log, vec![1, 0, 0, 0, 9, 2, 0, 0, 0, 8, 7]);
    assert_eq!(index.get(&3), Some(&(0, 1)));
    assert_eq!(index.get(&4), Some(&(5, 2)));
}
