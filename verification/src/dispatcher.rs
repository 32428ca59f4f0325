//! The dispatcher's bookkeeping: which partitions exist, the id and the
//! storage directory each was given, and how a writer hands a command to a
//! partition's queue.

use vstd::prelude::*;
use crate::commands::{PartitionCommand, WriteCommand};
use crate::map::{AHashMap, MAX_ENTRIES};
use crate::queue::BoundedQueue;
use crate::index::chars_of;
use vstd::string::StringExecFns;

verus! {

/// `path` with each `.` replaced by `/`.
pub open spec fn dots_to_slashes(path: Seq<char>) -> Seq<char> {
    path.map_values(|c: char| if c == '.' { '/' } else { c })
}

/// `path` with each `.` replaced by `/`.
fn replace_dots(path: &str) -> (r: String)
    ensures
        r@ == dots_to_slashes(path@),
{
    let cs = chars_of(path);
    let mut out = String::new();
    let mut start: usize = 0;
    let mut i: usize = 0;
    proof {
        reveal_strlit("/");
        assert(path@.take(0) =~= Seq::<char>::empty());
        assert(dots_to_slashes(Seq::<char>::empty()) =~= Seq::<char>::empty());
    }
    while i < cs.len()
        invariant
            cs@ == path@,
            start <= i <= cs@.len(),
            out@ == dots_to_slashes(path@.take(start as int)),
            forall|j: int| start <= j < i ==> path@[j] != '.',
            "/"@ == seq!['/'],
        decreases cs@.len() - i,
    {
        if cs[i] == '.' {
            let seg = path.substring_char(start, i);
            out.append(seg);
            out.append("/");
            proof {
                assert(dots_to_slashes(path@.take(i + 1)) =~= dots_to_slashes(path@.take(start as int)) + path@.subrange(
                    start as int,
                    i as int,
                ) + seq!['/']);
            }
            start = i + 1;
        }
        i = i + 1;
    }
    let seg = path.substring_char(start, cs.len());
    out.append(seg);
    proof {
        assert(dots_to_slashes(path@) =~= dots_to_slashes(path@.take(start as int)) + path@.subrange(
            start as int,
            path@.len() as int,
        ));
    }
    out
}

/// The directory `base/sub.data`.
fn data_dir_under(base: &str, sub: &str) -> (r: String)
    ensures
        r@ == base@ + "/"@ + sub@ + ".data"@,
{
    String::from_str(base).concat("/").concat(sub).concat(".data")
}

/// The directory `data/path`.
fn default_data_dir(path: &str) -> (r: String)
    ensures
        r@ == "data/"@ + path@,
{
    String::from_str("data/").concat(path)
}

/// The storage directory of the partition named `path`.
pub open spec fn spec_storage_path(base_path: Option<Seq<char>>, path: Seq<char>) -> Seq<char> {
    match base_path {
        Some(base) => base + "/"@ + dots_to_slashes(path) + ".data"@,
        None => "data/"@ + path,
    }
}

/// The storage directory of the partition named `path`: under the base
/// directory, the name with its dots as directory separators and `.data`
/// appended; without a base, `data/` and the name.
pub fn storage_path(base_path: &Option<String>, path: &str) -> (r: String)
    ensures
        r@ == spec_storage_path(
            match base_path {
                Some(b) => Some(b@),
                None => None,
            },
            path@,
        ),
{
    match base_path {
        Some(base) => {
            let sub = replace_dots(path);
            data_dir_under(base.as_str(), sub.as_str())
        },
        None => default_data_dir(path),
    }
}

/// What the dispatcher keeps of one registered partition.
pub struct RouteInfo {
    pub name: String,
    pub partition_id: u32,
    pub storage_path: String,
}

/// The registered partitions by name, and the id the next one gets.
pub struct RouteTable {
    base_path: Option<String>,
    routes: AHashMap<String, RouteInfo>,
    next_partition_id: u32,
}

/// The message of a request for a partition that was never registered.
pub const PARTITION_NOT_FOUND: &'static str = "Partition not found";

impl RouteTable {
    /// The routes by name.
    pub closed spec fn routes(&self) -> Map<Seq<char>, RouteInfo> {
        self.routes@
    }

    /// The directory under which partitions are stored.
    pub closed spec fn base(&self) -> Option<String> {
        self.base_path
    }

    /// The id the next registration gets.
    pub closed spec fn next_id(&self) -> u32 {
        self.next_partition_id
    }

    pub closed spec fn wf(&self) -> bool {
        &&& self.routes.wf()
        &&& self.routes@.len() <= self.next_partition_id
        &&& forall|n: Seq<char>| #[trigger] self.routes@.contains_key(n) ==> self.routes@[n].partition_id
            < self.next_partition_id && self.routes@[n].name@ == n
    }

    /// No partition, with storage under `base_path`.
    pub fn new(base_path: Option<String>) -> (t: Self)
        ensures
            t.wf(),
            t.routes() == Map::<Seq<char>, RouteInfo>::empty(),
            t.next_id() == 0,
            t.base() == base_path,
    {
        RouteTable { base_path, routes: AHashMap::new(), next_partition_id: 0 }
    }

    /// Registers the partition named `path`: it gets the next id and its
    /// storage directory, and replaces any route of that name. Gives the id
    /// and the directory.
    pub fn register(&mut self, path: String) -> (r: (u32, String))
        requires
            old(self).wf(),
            old(self).next_id() < u32::MAX,
            old(self).next_id() < MAX_ENTRIES,
        ensures
            final(self).wf(),
            final(self).base() == old(self).base(),
            r.0 == old(self).next_id(),
            final(self).next_id() == old(self).next_id() + 1,
            r.1@ == spec_storage_path(
                match old(self).base() {
                    Some(b) => Some(b@),
                    None => None,
                },
                path@,
            ),
            final(self).routes() == old(self).routes().insert(
                path@,
                final(self).routes()[path@],
            ),
            final(self).routes()[path@].partition_id == r.0,
            final(self).routes()[path@].storage_path@ == r.1@,
    {
        let id = self.next_partition_id;
        let dir = storage_path(&self.base_path, path.as_str());
        let info = RouteInfo { name: path.clone(), partition_id: id, storage_path: dir.clone() };
        proof {
            self.routes.lemma_finite();
            lemma_len_insert_bound(self.routes@, path@, info);
        }
        self.routes.insert(path, info);
        self.next_partition_id = id + 1;
        (id, dir)
    }

    /// The route of the partition named `name`.
    pub fn get_route(&self, name: &str) -> (r: Option<&RouteInfo>)
        requires
            self.wf(),
        ensures
            match r {
                Some(info) => self.routes().contains_key(name@) && *info == self.routes()[name@],
                None => !self.routes().contains_key(name@),
            },
    {
        self.routes.get(&name.to_owned())
    }

    /// The id of the partition named `name`, for a request that needs it to
    /// exist.
    pub fn require_partition(&self, name: &str) -> (r: Result<u32, &'static str>)
        requires
            self.wf(),
        ensures
            match r {
                Ok(id) => self.routes().contains_key(name@) && id == self.routes()[name@].partition_id,
                Err(e) => !self.routes().contains_key(name@) && e@ == PARTITION_NOT_FOUND@,
            },
    {
        match self.get_route(name) {
            Some(info) => Ok(info.partition_id),
            None => Err(PARTITION_NOT_FOUND),
        }
    }

    /// The id the next registration gets.
    pub fn next_partition_id(&self) -> (n: u32)
        ensures
            n == self.next_id(),
    {
        self.next_partition_id
    }

    /// The routes, one per registered name.
    pub fn routes_list(&self) -> (r: Vec<&RouteInfo>)
        requires
            self.wf(),
        ensures
            r@.len() == self.routes().len(),
            forall|j: int| 0 <= j < r@.len() ==> self.routes().contains_key((#[trigger] r@[j]).name@) && self.routes()[r@[j].name@] == *r@[j],
    {
        let r = self.routes.values();
        proof {
            self.routes.lemma_finite();
            let entries = choose|entries: Seq<(&String, &RouteInfo)>|
                #![trigger entries.len()]
                {
                    &&& entries.len() == r@.len()
                    &&& forall|j: int|
                        0 <= j < entries.len() ==> self.routes@.contains_key((#[trigger] entries[j]).0@)
                            && self.routes@[entries[j].0@] == *entries[j].1 && *r@[j] == *entries[j].1
                    &&& forall|kv: Seq<char>|
                        #[trigger] self.routes@.contains_key(kv) ==> exists|j: int|
                            0 <= j < entries.len() && (#[trigger] entries[j]).0@ == kv
                    &&& forall|j1: int, j2: int|
                        0 <= j1 < j2 < entries.len() ==> (#[trigger] entries[j1]).0@
                            != (#[trigger] entries[j2]).0@
                };
            let keys = Seq::new(entries.len(), |j: int| entries[j].0@);
            assert forall|j: int| 0 <= j < r@.len() implies self.routes@.contains_key((#[trigger] r@[j]).name@) && self.routes@[r@[j].name@] == *r@[j] by {
                assert(self.routes@.contains_key(entries[j].0@));
                assert(self.routes@[entries[j].0@].name@ == entries[j].0@);
            }
            assert(keys.no_duplicates()) by {
                assert forall|a: int, b: int| 0 <= a < keys.len() && 0 <= b < keys.len() && a != b implies keys[a] != keys[b] by {
                    if a < b {
                        assert(entries[a].0@ != entries[b].0@);
                    } else {
                        assert(entries[b].0@ != entries[a].0@);
                    }
                }
            }
            assert(keys.to_set() =~= self.routes@.dom()) by {
                assert forall|kv: Seq<char>| keys.to_set().contains(kv) <==> self.routes@.dom().contains(kv) by {
                    if self.routes@.contains_key(kv) {
                        let j = choose|j: int| 0 <= j < entries.len() && (#[trigger] entries[j]).0@ == kv;
                        assert(keys[j] == kv);
                    }
                    if keys.to_set().contains(kv) {
                        let j = choose|j: int| 0 <= j < keys.len() && keys[j] == kv;
                        assert(self.routes@.contains_key(entries[j].0@));
                    }
                }
            }
            keys.unique_seq_to_set();
        }
        r
    }

    /// The number of registered partitions.
    pub fn len(&self) -> (n: usize)
        requires
            self.wf(),
        ensures
            n == self.routes().len(),
    {
        self.routes.len()
    }
}

/// A map with one more key has at most one more entry.
proof fn lemma_len_insert_bound<K, V>(m: Map<K, V>, k: K, v: V)
    requires
        m.dom().finite(),
    ensures
        m.insert(k, v).len() <= m.len() + 1,
        m.insert(k, v).dom().finite(),
{
    if m.contains_key(k) {
        assert(m.insert(k, v).dom() =~= m.dom());
    } else {
        assert(m.insert(k, v).dom() =~= m.dom().insert(k));
    }
}

/// The message of a send to a full queue.
pub const QUEUE_FULL: &'static str = "Full";

/// Hands a write to a partition's queue without waiting: fails with
/// `"Full"`, leaving the queue as it was, when no slot is free.
pub fn try_send(queue: &mut BoundedQueue<PartitionCommand>, cmd: WriteCommand) -> (r: Result<(), &'static str>)
    requires
        old(queue).wf(),
    ensures
        final(queue).wf(),
        final(queue).capacity() == old(queue).capacity(),
        match r {
            Ok(()) => old(queue).view().len() < old(queue).capacity() && final(queue).view() == old(
                queue,
            ).view().push(PartitionCommand::Write(cmd)),
            Err(e) => old(queue).view().len() >= old(queue).capacity() && e@ == QUEUE_FULL@ && final(queue).view()
                == old(queue).view(),
        },
{
    match queue.push(PartitionCommand::Write(cmd)) {
        Ok(()) => Ok(()),
        Err(_) => Err(QUEUE_FULL),
    }
}

} // verus!
