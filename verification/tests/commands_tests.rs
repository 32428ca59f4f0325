use cddb::commands::{Attributes, PartitionCommand, WriteCommand, ColumnValue};
use cddb::map::AHashMap;
use std::sync::Arc;

#[test]
fn test_write_command_encode_decode() {
    let mut attrs_int = Attributes::new();
    attrs_int.insert("val".to_string(), 42u32);

    let cmd = WriteCommand::Insert {
        entity_id: 1,
        attributes: Attributes::new(),
        attributes_int: attrs_int,
        attributes_blob: Attributes::new(),
    };

    let bytes = cmd.encode();
    let decoded = WriteCommand::decode(&bytes).unwrap();

    if let WriteCommand::Insert { entity_id, attributes_int, .. } = decoded {
        assert_eq!(entity_id, 1);
        assert_eq!(attributes_int.get("val"), Some(&42));
    } else {
        panic!("Decode failed");
    }
}

#[test]
fn test_attributes() {
    let mut attrs = Attributes::new();
    attrs.insert("key".to_string(), "val".to_string());
    assert!(!attrs.is_empty());
    assert_eq!(attrs.len(), 1);
    assert_eq!(attrs.get("key"), Some(&"val".to_string()));
    let mut buf = Vec::new();
    attrs.encode_to(&mut buf);
    let mut pos = 0;
    let dec = Attributes::<String>::decode_from(&buf, &mut pos).unwrap();
    assert_eq!(dec.get("key"), Some(&"val".to_string()));
    assert_eq!(pos, buf.len());
}

#[test]
fn test_partition_command_debug() {
    let cmd = PartitionCommand::Shutdown;
    let s = cmd.debug_string();
    assert_eq!(s, "Shutdown");
}

#[test]
fn test_batch_and_fast_insert() {
    let fast = WriteCommand::InsertFast {
        entity_id: 1,
        epoch: 2,
        record_type: 3,
        payload: Arc::new(vec![1, 2, 3]),
    };
    let enc_fast = fast.encode();
    let dec_fast = WriteCommand::decode(&enc_fast).unwrap();
    if let WriteCommand::InsertFast { entity_id, epoch, .. } = dec_fast {
        assert_eq!(entity_id, 1);
        assert_eq!(epoch, 2);
    } else {
        panic!("Failed fast insert");
    }

    let batch = WriteCommand::BatchInsert(vec![(
        5,
        Attributes::new(),
        Attributes::new(),
        Attributes::new(),
    )]);
    let enc_batch = batch.encode();
    let dec_batch = WriteCommand::decode(&enc_batch).unwrap();
    if let WriteCommand::BatchInsert(items) = dec_batch {
        assert_eq!(items.len(), 1);
        assert_eq!(items[0].0, 5);
    } else {
        panic!("Failed batch insert");
    }
}

#[test]
fn delete_round_trips_and_has_exact_bytes() {
    let cmd = WriteCommand::Delete { entity_id: 7 };
    let bytes = cmd.encode();
    assert_eq!(bytes, vec![2, 7, 0, 0, 0, 0, 0, 0, 0]);
    match WriteCommand::decode(&bytes) {
        Some(WriteCommand::Delete { entity_id }) => assert_eq!(entity_id, 7),
        _ => panic!("delete did not round-trip"),
    }
}

#[test]
fn insert_with_all_three_kinds_round_trips() {
    let mut s = Attributes::new();
    s.insert("name".to_string(), "alice".to_string());
    let mut i = Attributes::new();
    i.insert("age".to_string(), 30u32);
    i.insert("score".to_string(), 7u32);
    let mut b = Attributes::new();
    b.insert("img".to_string(), vec![9u8, 8, 7]);
    let cmd = WriteCommand::Insert { entity_id: 3, attributes: s, attributes_int: i, attributes_blob: b };
    let bytes = cmd.encode();
    match WriteCommand::decode(&bytes) {
        Some(WriteCommand::Insert { entity_id, attributes, attributes_int, attributes_blob }) => {
            assert_eq!(entity_id, 3);
            assert_eq!(attributes.get("name"), Some(&"alice".to_string()));
            assert_eq!(attributes_int.get("age"), Some(&30));
            assert_eq!(attributes_int.get("score"), Some(&7));
            assert_eq!(attributes_blob.get("img"), Some(&vec![9u8, 8, 7]));
            assert_eq!(attributes_int.len(), 2);
        },
        _ => panic!("insert did not round-trip"),
    }
}

#[test]
fn decode_rejects_unknown_type_and_truncation() {
    assert!(WriteCommand::decode(&[]).is_none());
    assert!(WriteCommand::decode(&[9]).is_none());
    let bytes = WriteCommand::Delete { entity_id: 1 }.encode();
    assert!(WriteCommand::decode(&bytes[..bytes.len() - 1]).is_none());
}

#[test]
fn decode_any_rejects_malformed_utf8_value() {
    let mut attrs = Attributes::new();
    attrs.insert("k".to_string(), "v".to_string());
    let cmd = WriteCommand::Insert {
        entity_id: 1,
        attributes: attrs,
        attributes_int: Attributes::new(),
        attributes_blob: Attributes::new(),
    };
    let mut bytes = cmd.encode();
    let last = bytes.len();
    // The string value "v" sits before the two empty maps' counts.
    let pos = last - 8 - 1;
    assert_eq!(bytes[pos], b'v');
    bytes[pos] = 0xff;
    assert!(WriteCommand::decode_any(&bytes).is_none());
}

#[test]
fn typed_insert_splits_values_by_kind() {
    let mut m = AHashMap::new();
    m.insert("name".to_string(), ColumnValue::Str("bob".to_string()));
    m.insert("age".to_string(), ColumnValue::Int(41));
    m.insert("raw".to_string(), ColumnValue::Blob(vec![1, 2]));
    match WriteCommand::insert(12, m) {
        WriteCommand::Insert { entity_id, attributes, attributes_int, attributes_blob } => {
            assert_eq!(entity_id, 12);
            assert_eq!(attributes.get("name"), Some(&"bob".to_string()));
            assert_eq!(attributes_int.get("age"), Some(&41));
            assert_eq!(attributes_blob.get("raw"), Some(&vec![1u8, 2]));
            assert_eq!(attributes.len() + attributes_int.len() + attributes_blob.len(), 3);
        },
        _ => panic!("typed insert gave another command"),
    }
}

#[test]
fn partition_command_names() {
    let w = PartitionCommand::Write(WriteCommand::Delete { entity_id: 1 });
    assert_eq!(w.debug_string(), "Write");
}
