//! The high-level store interface: building the write of one attribute,
//! sending it to a partition, and reading one attribute back.

use vstd::prelude::*;
use crate::commands::{Attributes, CommandView, PartitionCommand, WriteCommand};
use crate::platform::MessageSender;
use crate::query::{QueryNode, QueryResult, ResultView};
use std::sync::Arc;

verus! {

/// A key-value store over entities: each entity holds values under keys.
pub trait CdDBStore {
    type Value;

    /// Writes `value` under `key` for entity `entity_id`.
    fn put(&self, entity_id: usize, key: &str, value: Self::Value) -> Result<(), &'static str>;

    /// The value under `key` for entity `entity_id`.
    fn get(&self, entity_id: usize, key: &str) -> Option<Self::Value>;

    /// Removes every value of entity `entity_id`.
    fn delete(&self, entity_id: usize) -> Result<(), &'static str>;
}

/// The insert of one string attribute.
pub fn str_insert_command(entity_id: usize, attr: &str, value: &str) -> (c: WriteCommand)
    ensures
        c.wf(),
        c.view() == (CommandView::Insert {
            entity_id,
            attrs: (
                Map::<Seq<char>, Seq<char>>::empty().insert(attr@, value@),
                Map::<Seq<char>, u32>::empty(),
                Map::<Seq<char>, Seq<u8>>::empty(),
            ),
        }),
{
    let mut attributes: Attributes<String> = Attributes::new();
    attributes.insert(attr.to_owned(), value.to_owned());
    WriteCommand::Insert {
        entity_id,
        attributes,
        attributes_int: Attributes::new(),
        attributes_blob: Attributes::new(),
    }
}

/// The insert of one blob attribute.
pub fn blob_insert_command(entity_id: usize, attr: &str, data: Vec<u8>) -> (c: WriteCommand)
    ensures
        c.wf(),
        c.view() == (CommandView::Insert {
            entity_id,
            attrs: (
                Map::<Seq<char>, Seq<char>>::empty(),
                Map::<Seq<char>, u32>::empty(),
                Map::<Seq<char>, Seq<u8>>::empty().insert(attr@, data@),
            ),
        }),
{
    let mut attributes_blob: Attributes<Vec<u8>> = Attributes::new();
    attributes_blob.insert(attr.to_owned(), data);
    WriteCommand::Insert {
        entity_id,
        attributes: Attributes::new(),
        attributes_int: Attributes::new(),
        attributes_blob,
    }
}

/// The fast insert of an epoch snapshot.
pub fn snapshot_command(entity_id: usize, epoch: u32, record_type: u32, payload: Vec<u8>) -> (c: WriteCommand)
    ensures
        c.wf(),
        c.view() == (CommandView::InsertFast { entity_id, epoch, record_type, payload: payload@ }),
{
    WriteCommand::InsertFast { entity_id, epoch, record_type, payload: Arc::new(payload) }
}

/// The query of one attribute of one entity, as reads hand it to the
/// dispatcher: a single `Get` step.
pub fn get_query<'a>(entity_id: usize, attr: &'a str) -> (q: Vec<QueryNode<'a>>)
    ensures
        q@ == seq![QueryNode::Get { entity_id, attr }],
{
    let q: Vec<QueryNode<'a>> = vec![QueryNode::Get { entity_id, attr }];
    proof {
        assert(q@ =~= seq![QueryNode::Get { entity_id, attr }]);
    }
    q
}

/// The message a failed send gives.
pub const SEND_FAILED: &'static str = "Failed to send command";

/// Runs a batch of query steps against the partition of the given name and
/// hands back the results in the order the steps gave them.
pub trait QueryDispatch {
    fn execute_batch(&self, partition: &str, nodes: &[QueryNode]) -> Vec<QueryResult>;
}

/// The last string among `rs`, if there is one.
pub open spec fn last_str(rs: Seq<ResultView>) -> Option<Seq<char>>
    decreases rs.len(),
{
    if rs.len() == 0 {
        None
    } else {
        match rs.last() {
            ResultView::Str(s) => Some(s),
            _ => last_str(rs.drop_last()),
        }
    }
}

/// The last blob among `rs`, if there is one.
pub open spec fn last_blob(rs: Seq<ResultView>) -> Option<Seq<u8>>
    decreases rs.len(),
{
    if rs.len() == 0 {
        None
    } else {
        match rs.last() {
            ResultView::Blob(b) => Some(b),
            _ => last_blob(rs.drop_last()),
        }
    }
}

/// The results by value.
pub open spec fn results_view(rs: Seq<QueryResult>) -> Seq<ResultView> {
    rs.map_values(|r: QueryResult| r.view())
}

/// The last string among the results of a batch: a read that meets several
/// strings keeps the one that came last.
pub fn pick_str(results: Vec<QueryResult>) -> (r: Option<String>)
    ensures
        match r {
            Some(s) => last_str(results_view(results@)) == Some(s@),
            None => last_str(results_view(results@)) is None,
        },
{
    let mut rest = results;
    while rest.len() > 0
        invariant
            last_str(results_view(results@)) == last_str(results_view(rest@)),
        decreases rest.len(),
    {
        let ghost before = rest@;
        let item = rest.pop().unwrap();
        proof {
            assert(results_view(before).drop_last() =~= results_view(rest@));
        }
        match item {
            QueryResult::Str(s) => {
                return Some(s);
            },
            _ => {},
        }
    }
    None
}

/// The last blob among the results of a batch: a read that meets several
/// blobs keeps the one that came last.
pub fn pick_blob(results: Vec<QueryResult>) -> (r: Option<Vec<u8>>)
    ensures
        match r {
            Some(b) => last_blob(results_view(results@)) == Some(b@),
            None => last_blob(results_view(results@)) is None,
        },
{
    let mut rest = results;
    while rest.len() > 0
        invariant
            last_blob(results_view(results@)) == last_blob(results_view(rest@)),
        decreases rest.len(),
    {
        let ghost before = rest@;
        let item = rest.pop().unwrap();
        proof {
            assert(results_view(before).drop_last() =~= results_view(rest@));
        }
        match item {
            QueryResult::Blob(b) => {
                return Some(b);
            },
            _ => {},
        }
    }
    None
}

/// The front end of one partition: its name, the channel to its writer and
/// the dispatcher that answers its reads.
pub struct CdDBPartition<'a, W: MessageSender, D: QueryDispatch> {
    pub name: String,
    pub writer: W,
    pub dispatcher: &'a D,
}

impl<'a, W: MessageSender, D: QueryDispatch> CdDBPartition<'a, W, D> {
    fn send(&self, cmd: WriteCommand) -> (r: Result<(), &'static str>)
        ensures
            r matches Err(e) ==> e@ == SEND_FAILED@,
    {
        match self.writer.send(PartitionCommand::Write(cmd)) {
            Ok(()) => Ok(()),
            Err(_) => Err(SEND_FAILED),
        }
    }

    /// Sends the insert of one string attribute.
    pub fn write_str(&self, entity_id: usize, attr: &str, value: &str) -> (r: Result<(), &'static str>)
        ensures
            r matches Err(e) ==> e@ == SEND_FAILED@,
    {
        self.send(str_insert_command(entity_id, attr, value))
    }

    /// Sends the insert of one blob attribute.
    pub fn write_blob(&self, entity_id: usize, attr: &str, data: Vec<u8>) -> (r: Result<(), &'static str>)
        ensures
            r matches Err(e) ==> e@ == SEND_FAILED@,
    {
        self.send(blob_insert_command(entity_id, attr, data))
    }

    /// Sends the fast insert of an epoch snapshot.
    pub fn write_epoch_snapshot(&self, entity_id: usize, epoch: u32, record_type: u32, payload: Vec<u8>) -> (r: Result<
        (),
        &'static str,
    >)
        ensures
            r matches Err(e) ==> e@ == SEND_FAILED@,
    {
        self.send(snapshot_command(entity_id, epoch, record_type, payload))
    }

    /// Sends the delete of an entity.
    pub fn delete(&self, entity_id: usize) -> (r: Result<(), &'static str>)
        ensures
            r matches Err(e) ==> e@ == SEND_FAILED@,
    {
        self.send(WriteCommand::Delete { entity_id })
    }

    /// Reads attribute `attr` of entity `entity_id` as a string: the last
    /// string the dispatcher answers with.
    pub fn read_str(&self, entity_id: usize, attr: &str) -> Option<String> {
        let nodes = get_query(entity_id, attr);
        let results = self.dispatcher.execute_batch(self.name.as_str(), nodes.as_slice());
        pick_str(results)
    }

    /// Reads attribute `attr` of entity `entity_id` as a blob: the last
    /// blob the dispatcher answers with.
    pub fn read_blob(&self, entity_id: usize, attr: &str) -> Option<Vec<u8>> {
        let nodes = get_query(entity_id, attr);
        let results = self.dispatcher.execute_batch(self.name.as_str(), nodes.as_slice());
        pick_blob(results)
    }
}

/// A store of string attributes over one partition.
pub struct CdDBStrStore<'a, W: MessageSender, D: QueryDispatch> {
    partition: CdDBPartition<'a, W, D>,
}

impl<'a, W: MessageSender, D: QueryDispatch> CdDBStrStore<'a, W, D> {
    pub fn new(partition: CdDBPartition<'a, W, D>) -> (s: Self)
        ensures
            s.partition() == partition,
    {
        CdDBStrStore { partition }
    }

    pub closed spec fn partition(&self) -> CdDBPartition<'a, W, D> {
        self.partition
    }
}

impl<'a, W: MessageSender, D: QueryDispatch> CdDBStore for CdDBStrStore<'a, W, D> {
    type Value = String;

    fn put(&self, entity_id: usize, key: &str, value: String) -> (r: Result<(), &'static str>)
        ensures
            r matches Err(e) ==> e@ == SEND_FAILED@,
    {
        self.partition.write_str(entity_id, key, value.as_str())
    }

    fn get(&self, entity_id: usize, key: &str) -> Option<String> {
        self.partition.read_str(entity_id, key)
    }

    fn delete(&self, entity_id: usize) -> (r: Result<(), &'static str>)
        ensures
            r matches Err(e) ==> e@ == SEND_FAILED@,
    {
        self.partition.delete(entity_id)
    }
}

/// A store of blob attributes over one partition.
pub struct CdDBBlobStore<'a, W: MessageSender, D: QueryDispatch> {
    partition: CdDBPartition<'a, W, D>,
}

impl<'a, W: MessageSender, D: QueryDispatch> CdDBBlobStore<'a, W, D> {
    pub fn new(partition: CdDBPartition<'a, W, D>) -> (s: Self)
        ensures
            s.partition() == partition,
    {
        CdDBBlobStore { partition }
    }

    pub closed spec fn partition(&self) -> CdDBPartition<'a, W, D> {
        self.partition
    }
}

impl<'a, W: MessageSender, D: QueryDispatch> CdDBStore for CdDBBlobStore<'a, W, D> {
    type Value = Vec<u8>;

    fn put(&self, entity_id: usize, key: &str, value: Vec<u8>) -> (r: Result<(), &'static str>)
        ensures
            r matches Err(e) ==> e@ == SEND_FAILED@,
    {
        self.partition.write_blob(entity_id, key, value)
    }

    fn get(&self, entity_id: usize, key: &str) -> Option<Vec<u8>> {
        self.partition.read_blob(entity_id, key)
    }

    fn delete(&self, entity_id: usize) -> (r: Result<(), &'static str>)
        ensures
            r matches Err(e) ==> e@ == SEND_FAILED@,
    {
        self.partition.delete(entity_id)
    }
}

} // verus!
