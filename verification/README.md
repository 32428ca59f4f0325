# cddb

A columnar storage engine whose data structures, codecs and bookkeeping
rules are written in Verus and proved against their specifications.

## Layout

- `src/` — the verified library:
  - `map` (open-addressing hash map), `column` (column storage with
    validity bits), `bloom` (Bloom filter), `queue` (bounded ring buffer),
    `qsbr` and `rcu` (reclamation bookkeeping and published snapshots);
  - `codec`, `commands` (write commands and their byte format), `storage`
    (append-only entity log and its index), `wal` (write-ahead log records
    and replay), `archive` (sealed provenance batches);
  - `query` (query plans over a snapshot of a partition), `partition` (the
    writer of one partition), `index` (inverted text index), `dispatcher`
    (route table), `facade`, `stores`, `ops`, `audit`, `cache`, `platform`,
    `hashing`.
- `app/` — the runtime around the library: the standard file system,
  threads running partitions, queues shared between threads, the
  background log flusher, and records with floating-point fields.
- `tests/` — tests of the library.

## Main properties

- Encoding then decoding a write command, an entity, a storage record or a
  log of commands gives back what was encoded.
- The entity log: each write appends its framed record to the log model
  and points the index at it; a read that gets back the log's bytes at an
  entity's entry gives the entity last written; compaction rebuilds the
  log as the records it kept, one after the other; opening a storage
  publishes the index rebuilt from the log already there.
- The Bloom filter reports every inserted id.
- The queue is first-in, first-out and refuses items only when full.
- After a write to an entity, a query session reads its attributes back;
  writes to other entities leave them as written, so the last write to an
  entity is the one read; a deleted entity reads as absent.
- A committed batch leaves, for each entity it names, the last of its
  writes to that entity readable, as long as the partition's maps have
  room; a load request in the batch counts as a write of what it brought
  in from the log for each entity of the block it read. Replaying a
  write-ahead log does the same for the writes it holds.
- The query engine's result for each step is the one its specification
  gives for the published snapshot.
