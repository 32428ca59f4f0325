use cddb::bloom::SimpleBloom;
use cddb::column::{ColumnArray, ColumnData, Columns, MultiVectorPointer};
use cddb::map::AHashMap;
use cddb::qsbr::QsbrManager;
use cddb::query::{AggregateOp, Bump, CdDbQuery, Lookup, QueryNode, QueryResult, QuerySession};
use cddb::rcu::{load_clone, swap_ptr};

fn column<T: Default + Clone>(vals: Vec<T>) -> ColumnArray<T, 1024> {
    let mut col = ColumnArray::<T, 1024>::new();
    col.acquire_lock();
    let mut data = load_clone(&col.data);
    for v in vals {
        data.push(v);
    }
    let _old = swap_ptr(&mut col.data, data);
    col.release_lock();
    col
}

fn pointer(id: usize, attrs: &[(&str, usize)]) -> MultiVectorPointer {
    let mut p = MultiVectorPointer::default();
    p.entity_id = id;
    for (a, i) in attrs {
        p.attribute_indices.insert(a.to_string(), *i);
    }
    p
}

struct Fixture {
    pointers: AHashMap<usize, MultiVectorPointer>,
    columns: Columns<1024>,
    bloom: SimpleBloom<1024>,
    disk: AHashMap<usize, (u64, u32)>,
}

impl Fixture {
    fn session(&self) -> QuerySession<'_, 1024> {
        QuerySession::new(&self.pointers, &self.columns, &self.bloom, &self.disk)
    }
}

fn make_test_route() -> Fixture {
    let mut columns = Columns::<1024>::new();
    columns.int_cols.insert("score".to_string(), column(vec![42u32, 100]));
    columns.str_cols.insert("name".to_string(), column(vec!["alice".to_string(), "bob".to_string()]));
    columns.blob_cols.insert("data".to_string(), column(vec![vec![1u8, 2, 3], vec![4u8, 5, 6]]));
    let mut pointers = AHashMap::new();
    pointers.insert(0, pointer(0, &[("score", 0), ("name", 0), ("data", 0)]));
    pointers.insert(1, pointer(1, &[("score", 1), ("name", 1), ("data", 1)]));
    Fixture { pointers, columns, bloom: SimpleBloom::new(), disk: AHashMap::new() }
}

fn run(f: &Fixture, nodes: &[QueryNode]) -> Vec<QueryResult> {
    let (results, stopped) = f.session().execute_batch_from(nodes, 0);
    assert!(stopped.is_none());
    results
}

fn dbg(results: &[QueryResult]) -> Vec<String> {
    results.iter().map(|r| format!("{:?}", r)).collect()
}

fn found<T>(l: Lookup<T>) -> Option<T> {
    match l {
        Lookup::Found(v) => Some(v),
        _ => None,
    }
}

#[test]
fn query_test_unsafe_transmute_lifetime() {
    let mut qsbr = QsbrManager::new();
    let mut col = ColumnArray::<String, 1024>::new();
    col.acquire_lock();
    let mut next = load_clone(&col.data);
    next.push("hello".to_string());
    next.push("world".to_string());
    let old = swap_ptr(&mut col.data, next);
    qsbr.defer_free(old);
    col.release_lock();

    let mut vals: Vec<String> = vec![];
    col.with_data_pinned(|data: &ColumnData<String>| {
        vals = data.iter().into_iter().flatten().cloned().collect::<Vec<String>>();
    });

    assert_eq!(vals.len(), 2);
    assert_eq!(vals[0], "hello");
    assert_eq!(vals[1], "world");
}

#[test]
fn test_unsafe_transmute_lifetime() {
    let mut qsbr = QsbrManager::new();
    let mut col = ColumnArray::<String, 1024>::new();
    col.acquire_lock();
    let mut next = load_clone(&col.data);
    next.push("hello".to_string());
    next.push("world".to_string());
    let old = swap_ptr(&mut col.data, next);
    qsbr.defer_free(old);
    col.release_lock();

    let mut vals: Vec<String> = vec![];
    col.with_data_pinned(|data: &ColumnData<String>| {
        vals = data.iter().into_iter().flatten().cloned().collect::<Vec<String>>();
    });

    assert_eq!(vals.len(), 2);
    assert_eq!(vals[0], "hello");
    assert_eq!(vals[1], "world");
}

#[test]
fn query_test_bump_allocator() {
    let mut bump = Bump::new();
    let s = bump.allocate(vec![1, 2, 3]);
    assert_eq!(s.len(), 3);
    assert_eq!(s[0], 1);
}

#[test]
fn query_test_bump_allocator_multiple() {
    let mut bump = Bump::<u32>::new();
    let a = bump.allocate(vec![10, 20]);
    assert_eq!(a, &[10, 20]);
    let b = bump.allocate(vec![30, 40, 50]);
    assert_eq!(b, &[30, 40, 50]);
}

#[test]
fn query_test_query_node_debug() {
    let node = QueryNode::Get { entity_id: 1, attr: "a" };
    let s = format!("{:?}", node);
    assert!(s.contains("Get"));
    let node2 = QueryNode::Scan { attr: "b" };
    assert!(format!("{:?}", node2).contains("Scan"));
    let node3 = QueryNode::Link { from_entity_id: 0, link_attr: "l", target_attr: "t" };
    assert!(format!("{:?}", node3).contains("Link"));
    let node4 = QueryNode::Range { entity_id: 0, attr: "a", len: 10 };
    assert!(format!("{:?}", node4).contains("Range"));
    let node5 = QueryNode::Aggregate { attr: "x", op: AggregateOp::Count };
    assert!(format!("{:?}", node5).contains("Aggregate"));
}

#[test]
fn query_test_query_result_debug() {
    let res = QueryResult::IntSum(100);
    let s = format!("{:?}", res);
    assert!(s.contains("IntSum(100)"));
    let op = AggregateOp::Sum;
    assert!(format!("{:?}", op).contains("Sum"));
    assert!(format!("{:?}", QueryResult::Int(5)).contains("Int(5)"));
    assert!(format!("{:?}", QueryResult::Str("x".to_string())).contains("Str"));
    assert!(format!("{:?}", QueryResult::Blob(vec![1])).contains("Blob"));
    assert!(format!("{:?}", QueryResult::IntMin(0)).contains("IntMin"));
    assert!(format!("{:?}", QueryResult::IntMax(99)).contains("IntMax"));
    assert!(format!("{:?}", QueryResult::IntAvg { sum: 3, count: 2 }).contains("IntAvg"));
    assert!(format!("{:?}", QueryResult::Count(3)).contains("Count"));
    assert!(format!("{:?}", QueryResult::NoResult).contains("NoResult"));
}

#[test]
fn query_test_aggregate_op_debug() {
    assert!(format!("{:?}", AggregateOp::Sum).contains("Sum"));
    assert!(format!("{:?}", AggregateOp::Avg).contains("Avg"));
    assert!(format!("{:?}", AggregateOp::Min).contains("Min"));
    assert!(format!("{:?}", AggregateOp::Max).contains("Max"));
    assert!(format!("{:?}", AggregateOp::Count).contains("Count"));
}

#[test]
fn test_aggregate_op_debug() {
    assert!(format!("{:?}", AggregateOp::Sum).contains("Sum"));
    assert!(format!("{:?}", AggregateOp::Avg).contains("Avg"));
    assert!(format!("{:?}", AggregateOp::Min).contains("Min"));
    assert!(format!("{:?}", AggregateOp::Max).contains("Max"));
    assert!(format!("{:?}", AggregateOp::Count).contains("Count"));
}

#[test]
fn query_test_cddb_query_struct() {
    let q = CdDbQuery {
        nodes: vec![
            QueryNode::Get { entity_id: 0, attr: "score" },
            QueryNode::Scan { attr: "name" },
        ],
    };
    assert_eq!(q.nodes.len(), 2);
    let cloned = q.clone();
    assert_eq!(cloned.nodes.len(), 2);
    let dbg = format!("{:?}", q);
    assert!(dbg.contains("CdDbQuery"));
}

#[test]
fn test_cddb_query_struct() {
    let q = CdDbQuery {
        nodes: vec![
            QueryNode::Get { entity_id: 0, attr: "score" },
            QueryNode::Scan { attr: "name" },
        ],
    };
    assert_eq!(q.nodes.len(), 2);
    let cloned = q.clone();
    assert_eq!(cloned.nodes.len(), 2);
    let dbg = format!("{:?}", q);
    assert!(dbg.contains("CdDbQuery"));
}

#[test]
fn query_test_query_session_get_int() {
    let f = make_test_route();
    let q = f.session();
    assert_eq!(found(q.get_int(0, "score")), Some(42));
    assert_eq!(found(q.get_int(1, "score")), Some(100));
    assert_eq!(found(q.get_int(2, "score")), None);
    assert_eq!(found(q.get_int(0, "nonexistent")), None);
}

#[test]
fn query_test_query_session_get_str() {
    let f = make_test_route();
    let q = f.session();
    assert_eq!(found(q.get_str(0, "name")), Some("alice".to_string()));
    assert_eq!(found(q.get_str(1, "name")), Some("bob".to_string()));
    assert_eq!(found(q.get_str(2, "name")), None);
}

#[test]
fn query_test_query_session_get_blob() {
    let f = make_test_route();
    let q = f.session();
    assert_eq!(found(q.get_blob(0, "data")), Some(vec![1, 2, 3]));
    assert_eq!(found(q.get_blob(1, "data")), Some(vec![4, 5, 6]));
    assert_eq!(found(q.get_blob(2, "data")), None);
}

#[test]
fn query_test_query_session_with_str() {
    let f = make_test_route();
    let session = f.session();
    let len = found(session.with_str(0, "name", |s| s.len()));
    assert_eq!(len, Some(5));
    let none = found(session.with_str(99, "name", |s| s.len()));
    assert_eq!(none, None);
}

#[test]
fn query_test_query_session_with_blob() {
    let f = make_test_route();
    let session = f.session();
    let sum = found(session.with_blob(0, "data", |b| b.iter().sum::<u8>()));
    assert_eq!(sum, Some(6));
    let none = found(session.with_blob(99, "data", |b| b.len()));
    assert_eq!(none, None);
}

#[test]
fn query_test_query_session_execute_scan() {
    let f = make_test_route();
    let results = dbg(&run(&f, &[QueryNode::Scan { attr: "score" }]));
    assert_eq!(results.len(), 1);
    assert!(results[0].contains("IntList"));
}

#[test]
fn query_test_query_session_execute_scan_str() {
    let f = make_test_route();
    let results = dbg(&run(&f, &[QueryNode::Scan { attr: "name" }]));
    assert_eq!(results.len(), 1);
    assert!(results[0].contains("StrList"));
}

#[test]
fn query_test_query_session_execute_scan_blob() {
    let f = make_test_route();
    let results = dbg(&run(&f, &[QueryNode::Scan { attr: "data" }]));
    assert_eq!(results.len(), 1);
    assert!(results[0].contains("BlobList"));
}

#[test]
fn query_test_query_session_execute_scan_nonexistent() {
    let f = make_test_route();
    let results = dbg(&run(&f, &[QueryNode::Scan { attr: "nope" }]));
    assert_eq!(results.len(), 1);
    assert!(results[0].contains("NoResult"));
}

#[test]
fn query_test_query_session_execute_get_int() {
    let f = make_test_route();
    let mut got_int = false;
    for r in run(&f, &[QueryNode::Get { entity_id: 0, attr: "score" }]) {
        if let QueryResult::Int(v) = r {
            assert_eq!(v, 42);
            got_int = true;
        }
    }
    assert!(got_int);
}

#[test]
fn query_test_query_session_execute_get_str_via_get_node() {
    let f = make_test_route();
    let mut got_str = false;
    for r in run(&f, &[QueryNode::Get { entity_id: 0, attr: "name" }]) {
        if let QueryResult::Str(s) = r {
            assert_eq!(s, "alice");
            got_str = true;
        }
    }
    assert!(got_str);
}

#[test]
fn query_test_query_session_execute_get_blob_via_get_node() {
    let f = make_test_route();
    let mut got_blob = false;
    for r in run(&f, &[QueryNode::Get { entity_id: 0, attr: "data" }]) {
        if let QueryResult::Blob(b) = r {
            assert_eq!(b, vec![1, 2, 3]);
            got_blob = true;
        }
    }
    assert!(got_blob);
}

#[test]
fn query_test_query_session_execute_get_none() {
    let f = make_test_route();
    let mut got_none = false;
    for r in run(&f, &[QueryNode::Get { entity_id: 99, attr: "score" }]) {
        if let QueryResult::NoResult = r {
            got_none = true;
        }
    }
    assert!(got_none);
}

#[test]
fn query_test_query_session_execute_aggregate_sum() {
    let f = make_test_route();
    let mut sum = 0u64;
    for r in run(&f, &[QueryNode::Aggregate { attr: "score", op: AggregateOp::Sum }]) {
        if let QueryResult::IntSum(v) = r {
            sum = v;
        }
    }
    assert_eq!(sum, 142);
}

#[test]
fn query_test_query_session_execute_aggregate_count() {
    let f = make_test_route();
    let mut count = 0usize;
    for r in run(&f, &[QueryNode::Aggregate { attr: "score", op: AggregateOp::Count }]) {
        if let QueryResult::Count(c) = r {
            count = c;
        }
    }
    assert_eq!(count, 2);
}

#[test]
fn query_test_query_session_execute_aggregate_min_max() {
    let f = make_test_route();
    let mut min_val = 0u32;
    let mut max_val = 0u32;
    for r in run(
        &f,
        &[
            QueryNode::Aggregate { attr: "score", op: AggregateOp::Min },
            QueryNode::Aggregate { attr: "score", op: AggregateOp::Max },
        ],
    ) {
        match r {
            QueryResult::IntMin(v) => min_val = v,
            QueryResult::IntMax(v) => max_val = v,
            _ => {},
        }
    }
    assert_eq!(min_val, 42);
    assert_eq!(max_val, 100);
}

#[test]
fn query_test_query_session_execute_aggregate_avg() {
    let f = make_test_route();
    let mut avg = 0.0f64;
    for r in run(&f, &[QueryNode::Aggregate { attr: "score", op: AggregateOp::Avg }]) {
        if let QueryResult::IntAvg { sum, count } = r {
            avg = sum as f64 / count as f64;
        }
    }
    assert!((avg - 71.0).abs() < 0.01);
}

#[test]
fn query_test_query_session_execute_aggregate_nonexistent() {
    let f = make_test_route();
    let mut got_none = false;
    for r in run(&f, &[QueryNode::Aggregate { attr: "nonexistent", op: AggregateOp::Sum }]) {
        if let QueryResult::NoResult = r {
            got_none = true;
        }
    }
    assert!(got_none);
}

#[test]
fn query_test_query_session_execute_link() {
    let mut columns = Columns::<1024>::new();
    columns.int_cols.insert("link_to".to_string(), column(vec![1u32]));
    columns.str_cols.insert(
        "target_name".to_string(),
        column(vec!["entity0_name".to_string(), "target_name".to_string()]),
    );
    let mut pointers = AHashMap::new();
    pointers.insert(0, pointer(0, &[("link_to", 0)]));
    pointers.insert(1, pointer(1, &[("target_name", 1)]));
    let f = Fixture { pointers, columns, bloom: SimpleBloom::new(), disk: AHashMap::new() };

    let mut got_str = false;
    for r in run(&f, &[QueryNode::Link { from_entity_id: 0, link_attr: "link_to", target_attr: "target_name" }]) {
        if let QueryResult::Str(s) = r {
            assert_eq!(s, "target_name");
            got_str = true;
        }
    }
    assert!(got_str);
}

#[test]
fn query_test_query_session_execute_link_none() {
    let f = make_test_route();
    let mut got_none = false;
    for r in run(&f, &[QueryNode::Link { from_entity_id: 99, link_attr: "score", target_attr: "name" }]) {
        if let QueryResult::NoResult = r {
            got_none = true;
        }
    }
    assert!(got_none);
}

#[test]
fn query_test_query_sum_int_range() {
    let f = make_test_route();
    let q = f.session();
    assert_eq!(q.sum_int_range("score", 0, 2), Some(142));
    assert_eq!(q.sum_int_range("score", 0, 1), Some(42));
    assert_eq!(q.sum_int_range("nonexistent", 0, 1), None);
}

#[test]
fn query_test_query_seed_bloom_filter() {
    let mut f = make_test_route();
    f.bloom.insert(999);
    assert!(f.bloom.contains(999));
}

#[test]
fn query_test_query_session_entities_iter() {
    let f = make_test_route();
    let session = f.session();
    let mut entities: Vec<usize> = session.entity_ids();
    entities.sort();
    assert_eq!(entities, vec![0, 1]);
}

#[test]
fn query_test_query_session_get_signed_record() {
    let mut columns = Columns::<1024>::new();
    columns.blob_cols.insert("payload".to_string(), column(vec![vec![10u8, 20, 30]]));
    columns.int_cols.insert("epoch".to_string(), column(vec![5u32]));
    columns.int_cols.insert("type".to_string(), column(vec![2u32]));
    let mut pointers = AHashMap::new();
    pointers.insert(0, pointer(0, &[("payload", 0), ("epoch", 0), ("type", 0)]));
    let f = Fixture { pointers, columns, bloom: SimpleBloom::new(), disk: AHashMap::new() };

    let session = f.session();
    let result = found(session.get_signed_record(0));
    assert!(result.is_some());
    let (payload, epoch, record_type) = result.unwrap();
    assert_eq!(payload, vec![10, 20, 30]);
    assert_eq!(epoch, 5);
    assert_eq!(record_type, 2);
    assert!(found(session.get_signed_record(99)).is_none());
}

#[test]
fn query_test_query_execute_batch_multiple_nodes() {
    let f = make_test_route();
    let results = dbg(&run(
        &f,
        &[
            QueryNode::Get { entity_id: 0, attr: "score" },
            QueryNode::Get { entity_id: 1, attr: "score" },
            QueryNode::Scan { attr: "score" },
        ],
    ));
    assert_eq!(results.len(), 3);
    assert!(results[0].contains("Int(42)"));
    assert!(results[1].contains("Int(100)"));
    assert!(results[2].contains("IntList"));
}

#[test]
fn query_test_query_execute_range_none() {
    let f = make_test_route();
    let mut got_none = false;
    for r in run(&f, &[QueryNode::Range { entity_id: 0, attr: "nonexistent", len: 5 }]) {
        if let QueryResult::NoResult = r {
            got_none = true;
        }
    }
    assert!(got_none);
}

#[test]
fn query_test_query_execute_range_success() {
    let f = make_test_route();
    let mut got_range = false;
    for r in run(&f, &[QueryNode::Range { entity_id: 0, attr: "score", len: 2 }]) {
        if let QueryResult::IntRange(slice) = r {
            assert_eq!(slice.len(), 2);
            got_range = true;
        }
    }
    assert!(got_range);
}

#[test]
fn query_test_query_link_blob() {
    let mut f = make_test_route();
    f.columns.int_cols.insert("link".to_string(), column(vec![1u32]));
    let mut p = pointer(0, &[("score", 0), ("name", 0), ("data", 0)]);
    p.attribute_indices.insert("link".to_string(), 0);
    f.pointers.insert(0, p);

    let mut got_blob = false;
    let mut got_none = false;
    for r in run(
        &f,
        &[
            QueryNode::Link { from_entity_id: 0, link_attr: "link", target_attr: "data" },
            QueryNode::Link { from_entity_id: 0, link_attr: "score", target_attr: "data" },
        ],
    ) {
        match r {
            QueryResult::Blob(_) => got_blob = true,
            QueryResult::NoResult => got_none = true,
            _ => {},
        }
    }
    assert!(got_blob);
    assert!(got_none);
}

#[test]
fn query_test_query_session_execute_aggregate_empty_avg() {
    let mut f = make_test_route();
    f.columns.int_cols.insert("empty".to_string(), ColumnArray::<u32, 1024>::new());
    let mut got_none = false;
    for r in run(&f, &[QueryNode::Aggregate { attr: "empty", op: AggregateOp::Avg }]) {
        if let QueryResult::NoResult = r {
            got_none = true;
        }
    }
    assert!(got_none);
}

#[test]
fn missing_entity_on_disk_asks_for_a_load_once() {
    let mut f = make_test_route();
    f.bloom.insert(7);
    f.disk.insert(7, (0, 10));
    let mut session = f.session();
    let nodes = [QueryNode::Get { entity_id: 0, attr: "score" }, QueryNode::Get { entity_id: 7, attr: "score" }];
    let (results, stopped) = session.execute_batch_from(&nodes, 0);
    assert_eq!(results.len(), 1);
    assert_eq!(stopped, Some(7));
    session.mark_attempted(7);
    let (rest, stopped) = session.execute_batch_from(&nodes, 1);
    assert!(stopped.is_none());
    assert!(matches!(rest[0], QueryResult::NoResult));
}
