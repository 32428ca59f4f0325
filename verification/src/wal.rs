//! The write-ahead log: its modes and flushing configuration, the framing of
//! logged commands, and the reading of a log back into commands.

use vstd::prelude::*;
use crate::codec::{get_bytes, get_u32, le32, lemma_le32_len, lemma_u32_roundtrip, put_bytes, put_u32, u32_at};
use crate::commands::{command_encodable, encodes, lemma_command_roundtrip, parse_command, CommandView, Parsed, WriteCommand, MAX_INPUT};
use crate::platform::FileSystem;
use crate::storage::frame;
use core::time::Duration;

verus! {

/// How durably writes reach the disk.
#[derive(Debug, Clone, Copy, PartialEq, Eq)]
pub enum DurabilityMode {
    /// Written data is flushed and synced at the given interval.
    Relaxed(Duration),
    /// Every write is flushed and synced before it returns.
    Strict,
}

/// How the background flusher batches writes.
#[derive(Debug, Clone, Copy, PartialEq, Eq, Structural)]
pub struct FlushConfig {
    pub batch_size_bytes: usize,
    pub ttl_micros: u64,
    pub expert_mode: bool,
}

/// Builds a [`FlushConfig`], refusing flush intervals that the hardware
/// cannot honour unless expert mode is unlocked.
pub struct FlushConfigBuilder {
    batch_size_bytes: usize,
    ttl_micros: u64,
    expert_mode: bool,
}

/// Batch size, in bytes, of a default flush configuration.
pub const DEFAULT_BATCH_SIZE: usize = 204428;

/// Flush interval, in microseconds, of a default flush configuration.
pub const DEFAULT_TTL_MICROS: u64 = 10_000;

/// Shortest flush interval, in microseconds, accepted outside expert mode.
pub const MIN_TTL_MICROS: u64 = 1000;

impl FlushConfigBuilder {
    /// The configuration that the builder would build.
    pub closed spec fn config(&self) -> FlushConfig {
        FlushConfig { batch_size_bytes: self.batch_size_bytes, ttl_micros: self.ttl_micros, expert_mode: self.expert_mode }
    }

    /// The default configuration.
    pub fn new() -> (b: Self)
        ensures
            b.config() == (FlushConfig {
                batch_size_bytes: DEFAULT_BATCH_SIZE,
                ttl_micros: DEFAULT_TTL_MICROS,
                expert_mode: false,
            }),
    {
        FlushConfigBuilder { batch_size_bytes: DEFAULT_BATCH_SIZE, ttl_micros: DEFAULT_TTL_MICROS, expert_mode: false }
    }

    /// Sets the batch size.
    pub fn with_batch_size(self, size: usize) -> (b: Self)
        ensures
            b.config() == (FlushConfig { batch_size_bytes: size, ..self.config() }),
    {
        FlushConfigBuilder { batch_size_bytes: size, ..self }
    }

    /// Sets the flush interval.
    pub fn with_ttl_micros(self, micros: u64) -> (b: Self)
        ensures
            b.config() == (FlushConfig { ttl_micros: micros, ..self.config() }),
    {
        FlushConfigBuilder { ttl_micros: micros, ..self }
    }

    /// Allows flush intervals below [`MIN_TTL_MICROS`].
    pub fn unlock_expert_danger_zone(self) -> (b: Self)
        ensures
            b.config() == (FlushConfig { expert_mode: true, ..self.config() }),
    {
        FlushConfigBuilder { expert_mode: true, ..self }
    }

    /// The configuration. A flush interval below [`MIN_TTL_MICROS`] is
    /// refused unless expert mode is unlocked.
    pub fn build(self) -> (c: FlushConfig)
        requires
            self.config().ttl_micros >= MIN_TTL_MICROS || self.config().expert_mode,
        ensures
            c == self.config(),
    {
        FlushConfig { batch_size_bytes: self.batch_size_bytes, ttl_micros: self.ttl_micros, expert_mode: self.expert_mode }
    }
}

impl Default for FlushConfigBuilder {
    fn default() -> (b: Self)
        ensures
            b.config() == (FlushConfig {
                batch_size_bytes: DEFAULT_BATCH_SIZE,
                ttl_micros: DEFAULT_TTL_MICROS,
                expert_mode: false,
            }),
    {
        FlushConfigBuilder::new()
    }
}

/// How the log writes: synchronously on every append, in batches about
/// every millisecond, or as configured.
#[derive(Clone, Copy, PartialEq, Eq, Debug)]
pub enum WalMode {
    Sync,
    Async100ms,
    Custom { durability: DurabilityMode, flush: FlushConfig },
}

impl Default for WalMode {
    fn default() -> (m: Self)
        ensures
            m is Sync,
    {
        WalMode::Sync
    }
}

/// Flush interval, in microseconds, of the batching mode.
pub const ASYNC_INTERVAL_MICROS: u64 = 1000;

/// Batch size, in bytes, of the batching mode.
pub const ASYNC_BATCH_SIZE: usize = 65536;

impl WalMode {
    /// Whether appends are handed to a background flusher.
    pub open spec fn spec_is_async(&self) -> bool {
        match self {
            WalMode::Async100ms => true,
            WalMode::Custom { durability: DurabilityMode::Relaxed(_), .. } => true,
            _ => false,
        }
    }

    /// Whether appends are handed to a background flusher: in the batching
    /// mode, and in a custom mode with relaxed durability.
    pub fn is_async(&self) -> (b: bool)
        ensures
            b == self.spec_is_async(),
    {
        match self {
            WalMode::Async100ms => true,
            WalMode::Custom { durability: DurabilityMode::Relaxed(_), .. } => true,
            _ => false,
        }
    }

    /// The background flusher's interval in microseconds and its batch size
    /// in bytes.
    pub fn flush_parameters(&self) -> (r: (u64, usize))
        ensures
            r == match self {
                WalMode::Custom { durability: DurabilityMode::Relaxed(_), flush } => (
                    flush.ttl_micros,
                    flush.batch_size_bytes,
                ),
                _ => (ASYNC_INTERVAL_MICROS, ASYNC_BATCH_SIZE),
            },
    {
        match self {
            WalMode::Custom { durability: DurabilityMode::Relaxed(_), flush } => (flush.ttl_micros, flush.batch_size_bytes),
            _ => (ASYNC_INTERVAL_MICROS, ASYNC_BATCH_SIZE),
        }
    }
}

/// How long the background flusher waits for more writes before syncing:
/// while the buffered bytes are fewer than a batch and the interval since
/// the last sync has not passed, the rest of the interval; else nothing.
pub fn flush_wait_micros(buffered_bytes: usize, batch_size: usize, elapsed_micros: u64, interval_micros: u64) -> (w: u64)
    ensures
        w == if buffered_bytes < batch_size && elapsed_micros < interval_micros {
            (interval_micros - elapsed_micros) as u64
        } else {
            0u64
        },
{
    if buffered_bytes < batch_size && elapsed_micros < interval_micros {
        interval_micros - elapsed_micros
    } else {
        0
    }
}

/// A write-ahead log. Nothing is assumed of what an implementation returns.
pub trait WalProvider: Send + Sync {
    /// Logs one command.
    fn append(&self, cmd: &WriteCommand) -> Result<(), String>
        requires
            cmd.wf(),
    ;

    /// Logs several commands at once.
    fn append_batch(&self, commands: &[&WriteCommand]) -> Result<(), String>
        requires
            forall|i: int| 0 <= i < commands@.len() ==> (#[trigger] commands@[i]).wf(),
    ;

    /// Makes what was logged durable.
    fn checkpoint(&self) -> Result<(), String>;

    /// The whole log, as written.
    fn read_all(&self) -> Result<Vec<u8>, String>;
}

/// A log that keeps nothing, for volatile partitions.
pub struct NoopWal;

impl WalProvider for NoopWal {
    fn append(&self, cmd: &WriteCommand) -> (r: Result<(), String>)
        ensures
            r is Ok,
    {
        Ok(())
    }

    fn append_batch(&self, commands: &[&WriteCommand]) -> (r: Result<(), String>)
        ensures
            r is Ok,
    {
        Ok(())
    }

    fn checkpoint(&self) -> (r: Result<(), String>)
        ensures
            r is Ok,
    {
        Ok(())
    }

    fn read_all(&self) -> (r: Result<Vec<u8>, String>)
        ensures
            r matches Ok(v) && v@.len() == 0,
    {
        Ok(Vec::new())
    }
}

/// The records of `bs`, framed one after the other.
pub open spec fn framed_all(bs: Seq<Seq<u8>>) -> Seq<u8>
    decreases bs.len(),
{
    if bs.len() == 0 {
        Seq::empty()
    } else {
        frame(bs[0]) + framed_all(bs.skip(1))
    }
}

/// The payloads of the complete records of a log from `pos`; reading stops
/// at a record that is cut short.
pub open spec fn wal_records(bytes: Seq<u8>, pos: int) -> Seq<Seq<u8>>
    decreases bytes.len() - pos,
{
    if 0 <= pos && pos + 4 <= bytes.len() {
        let len = u32_at(bytes, pos) as int;
        if pos + 4 + len <= bytes.len() {
            seq![bytes.subrange(pos + 4, pos + 4 + len)] + wal_records(bytes, pos + 4 + len)
        } else {
            Seq::empty()
        }
    } else {
        Seq::empty()
    }
}

/// The commands that payloads decode to, skipping those that do not.
pub open spec fn decoded(payloads: Seq<Seq<u8>>) -> Seq<CommandView>
    decreases payloads.len(),
{
    if payloads.len() == 0 {
        Seq::empty()
    } else {
        let rest = decoded(payloads.skip(1));
        match parse_command(payloads[0]) {
            Parsed::Done(c, _) => seq![c] + rest,
            _ => rest,
        }
    }
}

/// The log record of one command: its encoding, framed.
pub fn encode_wal_record(cmd: &WriteCommand) -> (r: Vec<u8>)
    requires
        cmd.wf(),
    ensures
        exists|b: Seq<u8>| #[trigger] encodes(cmd.view(), b) && r@ == frame(b),
{
    let bytes = cmd.encode();
    let mut r: Vec<u8> = Vec::new();
    put_u32(&mut r, bytes.len() as u32);
    put_bytes(&mut r, bytes.as_slice());
    proof {
        assert(r@ =~= frame(bytes@));
    }
    r
}

proof fn lemma_framed_push(bs: Seq<Seq<u8>>, b: Seq<u8>)
    ensures
        framed_all(bs.push(b)) == framed_all(bs) + frame(b),
    decreases bs.len(),
{
    if bs.len() == 0 {
        assert(bs.push(b).skip(1) =~= Seq::<Seq<u8>>::empty());
        assert(bs.push(b)[0] == b);
        assert(framed_all(Seq::<Seq<u8>>::empty()) =~= Seq::<u8>::empty());
        assert(framed_all(bs.push(b)) =~= frame(b));
        assert(framed_all(bs) + frame(b) =~= frame(b));
    } else {
        lemma_framed_push(bs.skip(1), b);
        assert(bs.push(b).skip(1) =~= bs.skip(1).push(b));
        assert(framed_all(bs.push(b)) =~= framed_all(bs) + frame(b));
    }
}

/// The log records of several commands, one after the other.
pub fn encode_wal_batch(commands: &[&WriteCommand]) -> (r: Vec<u8>)
    requires
        forall|i: int| 0 <= i < commands@.len() ==> (#[trigger] commands@[i]).wf(),
    ensures
        exists|bs: Seq<Seq<u8>>|
            {
                &&& bs.len() == commands@.len()
                &&& forall|i: int| 0 <= i < bs.len() ==> #[trigger] encodes(commands@[i].view(), bs[i])
                &&& r@ == framed_all(bs)
            },
{
    let mut r: Vec<u8> = Vec::new();
    let ghost mut bs: Seq<Seq<u8>> = Seq::empty();
    let mut i: usize = 0;
    while i < commands.len()
        invariant
            forall|j: int| 0 <= j < commands@.len() ==> (#[trigger] commands@[j]).wf(),
            i <= commands@.len(),
            bs.len() == i,
            forall|j: int| 0 <= j < i ==> #[trigger] encodes(commands@[j].view(), bs[j]),
            r@ == framed_all(bs),
        decreases commands@.len() - i,
    {
        let cmd: &WriteCommand = commands[i];
        let bytes = cmd.encode();
        put_u32(&mut r, bytes.len() as u32);
        put_bytes(&mut r, bytes.as_slice());
        proof {
            lemma_framed_push(bs, bytes@);
            bs = bs.push(bytes@);
            assert(r@ =~= framed_all(bs));
            assert forall|j: int| 0 <= j < i + 1 implies #[trigger] encodes(commands@[j].view(), bs[j]) by {
                if j < i {
                    assert(bs[j] == bs.drop_last()[j]);
                }
            }
        }
        i = i + 1;
    }
    r
}

proof fn lemma_wal_shift(x: Seq<u8>, y: Seq<u8>, pos: int)
    requires
        0 <= pos,
    ensures
        wal_records(x + y, x.len() + pos) == wal_records(y, pos),
    decreases y.len() - pos,
{
    let b = x + y;
    let p = x.len() + pos;
    if pos + 4 <= y.len() {
        assert(b.subrange(p, p + 4) =~= y.subrange(pos, pos + 4));
        let len = u32_at(y, pos) as int;
        if pos + 4 + len <= y.len() {
            assert(b.subrange(p + 4, p + 4 + len) =~= y.subrange(pos + 4, pos + 4 + len));
            lemma_wal_shift(x, y, pos + 4 + len);
        }
    }
}

proof fn lemma_wal_framed(bs: Seq<Seq<u8>>)
    requires
        forall|i: int| 0 <= i < bs.len() ==> (#[trigger] bs[i]).len() <= u32::MAX,
    ensures
        wal_records(framed_all(bs), 0) == bs,
    decreases bs.len(),
{
    if bs.len() == 0 {
        assert(wal_records(Seq::<u8>::empty(), 0) =~= Seq::<Seq<u8>>::empty());
    } else {
        let b = bs[0];
        let rest = framed_all(bs.skip(1));
        let all = framed_all(bs);
        assert forall|i: int| 0 <= i < bs.skip(1).len() implies (#[trigger] bs.skip(1)[i]).len() <= u32::MAX by {
            assert(bs.skip(1)[i] == bs[i + 1]);
        }
        lemma_wal_framed(bs.skip(1));
        lemma_le32_len(b.len() as u32);
        lemma_u32_roundtrip(Seq::<u8>::empty(), b.len() as u32, b + rest);
        assert(all =~= Seq::<u8>::empty() + le32(b.len() as u32) + (b + rest));
        assert(all.subrange(4, 4 + b.len() as int) =~= b);
        assert(all =~= frame(b) + rest);
        lemma_wal_shift(frame(b), rest, 0);
        assert(wal_records(all, 0) =~= seq![b] + bs.skip(1));
        assert(seq![b] + bs.skip(1) =~= bs);
    }
}

proof fn lemma_decoded_all(cs: Seq<CommandView>, bs: Seq<Seq<u8>>)
    requires
        cs.len() == bs.len(),
        forall|i: int| 0 <= i < bs.len() ==> #[trigger] encodes(cs[i], bs[i]) && command_encodable(cs[i]),
    ensures
        decoded(bs) == cs,
    decreases bs.len(),
{
    if bs.len() == 0 {
        assert(cs =~= Seq::<CommandView>::empty());
    } else {
        assert(encodes(cs[0], bs[0]));
        lemma_command_roundtrip(cs[0], bs[0]);
        assert forall|i: int| 0 <= i < bs.skip(1).len() implies #[trigger] encodes(cs.skip(1)[i], bs.skip(1)[i])
            && command_encodable(cs.skip(1)[i]) by {
            assert(encodes(cs[i + 1], bs[i + 1]));
        }
        lemma_decoded_all(cs.skip(1), bs.skip(1));
        assert(seq![cs[0]] + cs.skip(1) =~= cs);
    }
}

/// Replaying a log written by [`encode_wal_batch`] gives back the logged
/// commands, in order, when every length fits its 32-bit prefix.
pub proof fn lemma_wal_roundtrip(cs: Seq<CommandView>, bs: Seq<Seq<u8>>)
    requires
        cs.len() == bs.len(),
        forall|i: int| 0 <= i < bs.len() ==> #[trigger] encodes(cs[i], bs[i]),
        forall|i: int| 0 <= i < cs.len() ==> #[trigger] command_encodable(cs[i]),
        forall|i: int| 0 <= i < bs.len() ==> (#[trigger] bs[i]).len() <= u32::MAX,
    ensures
        decoded(wal_records(framed_all(bs), 0)) == cs,
{
    lemma_wal_framed(bs);
    assert forall|i: int| 0 <= i < bs.len() implies #[trigger] encodes(cs[i], bs[i]) && command_encodable(cs[i]) by {
        assert(command_encodable(cs[i]));
    }
    lemma_decoded_all(cs, bs);
}

/// Reads a log back into the commands it holds: each complete record's
/// payload is decoded, and payloads that do not decode are skipped.
pub fn replay_commands(bytes: &[u8]) -> (r: Vec<WriteCommand>)
    requires
        bytes@.len() <= MAX_INPUT,
    ensures
        r@.len() == decoded(wal_records(bytes@, 0)).len(),
        forall|i: int| 0 <= i < r@.len() ==> (#[trigger] r@[i]).wf() && r@[i].view() == decoded(
            wal_records(bytes@, 0),
        )[i],
{
    let mut out: Vec<WriteCommand> = Vec::new();
    let ghost mut done: Seq<Seq<u8>> = Seq::empty();
    let mut pos: usize = 0;
    let blen = bytes.len();
    while pos <= blen && blen - pos >= 4
        invariant
            blen == bytes@.len(),
            blen <= MAX_INPUT,
            pos <= blen,
            done + wal_records(bytes@, pos as int) == wal_records(bytes@, 0),
            out@.len() == decoded(done).len(),
            forall|i: int| 0 <= i < out@.len() ==> (#[trigger] out@[i]).wf() && out@[i].view() == decoded(done)[i],
        decreases blen - pos,
    {
        let len = get_u32(bytes, pos).unwrap() as usize;
        let p4 = pos + 4;
        if len <= blen - p4 {
            let payload = get_bytes(bytes, p4, len).unwrap();
            let ghost pl = payload@;
            proof {
                lemma_decoded_push(done, pl);
                assert(wal_records(bytes@, pos as int) =~= seq![pl] + wal_records(bytes@, p4 + len));
                assert(done + wal_records(bytes@, pos as int) =~= done.push(pl) + wal_records(bytes@, p4 + len));
            }
            match WriteCommand::decode_any(payload) {
                Some(c) => {
                    out.push(c);
                    proof {
                        assert forall|i: int| 0 <= i < out@.len() implies (#[trigger] out@[i]).wf()
                            && out@[i].view() == decoded(done.push(pl))[i] by {
                            if i < out@.len() - 1 {
                                assert(out@[i] == out@.drop_last()[i]);
                            }
                        }
                    }
                },
                None => {},
            }
            proof {
                done = done.push(pl);
            }
            pos = p4 + len;
        } else {
            proof {
                assert(wal_records(bytes@, pos as int) =~= Seq::<Seq<u8>>::empty());
                assert(wal_records(bytes@, blen as int) =~= Seq::<Seq<u8>>::empty());
                assert(done + wal_records(bytes@, pos as int) =~= done);
                assert(done + wal_records(bytes@, blen as int) =~= done);
            }
            pos = blen;
        }
    }
    proof {
        if pos > blen || blen - pos < 4 {
            assert(wal_records(bytes@, pos as int) =~= Seq::<Seq<u8>>::empty());
        }
        assert(done + Seq::<Seq<u8>>::empty() =~= done);
    }
    out
}

/// Decoding one more payload adds its command at the end, if it decodes.
proof fn lemma_decoded_push(done: Seq<Seq<u8>>, p: Seq<u8>)
    ensures
        decoded(done.push(p)) == match parse_command(p) {
            Parsed::Done(c, _) => decoded(done).push(c),
            _ => decoded(done),
        },
    decreases done.len(),
{
    if done.len() == 0 {
        assert(done.push(p).skip(1) =~= Seq::<Seq<u8>>::empty());
        assert(done.push(p)[0] == p);
        assert(decoded(Seq::<Seq<u8>>::empty()) =~= Seq::<CommandView>::empty());
        assert(decoded(done) =~= Seq::<CommandView>::empty());
        match parse_command(p) {
            Parsed::Done(c, _) => {
                assert(decoded(done.push(p)) =~= seq![c]);
            },
            _ => {},
        }
    } else {
        lemma_decoded_push(done.skip(1), p);
        assert(done.push(p).skip(1) =~= done.skip(1).push(p));
        assert(done.push(p)[0] == done[0]);
        match parse_command(p) {
            Parsed::Done(c, _) => {
                assert(decoded(done.push(p)) =~= decoded(done).push(c));
            },
            _ => {
                assert(decoded(done.push(p)) =~= decoded(done));
            },
        }
    }
}

/// A log kept in one file through a file system: each append adds framed
/// records to the end of the file.
pub struct StdWal<F: FileSystem> {
    pub path: String,
    pub fs: F,
    pub mode: WalMode,
}

impl<F: FileSystem> StdWal<F> {
    /// A log in the file at `path`.
    pub fn new(path: String, fs: F, mode: WalMode) -> (w: Self)
        ensures
            w.path@ == path@,
            w.mode == mode,
    {
        StdWal { path, fs, mode }
    }
}

impl<F: FileSystem> WalProvider for StdWal<F> {
    fn append(&self, cmd: &WriteCommand) -> (r: Result<(), String>) {
        let record = encode_wal_record(cmd);
        match self.fs.append(self.path.as_str(), record.as_slice()) {
            Ok(()) => Ok(()),
            Err(e) => Err(e.to_message()),
        }
    }

    fn append_batch(&self, commands: &[&WriteCommand]) -> (r: Result<(), String>)
        ensures
            commands@.len() == 0 ==> r is Ok,
    {
        let buf = encode_wal_batch(commands);
        proof {
            if commands@.len() == 0 {
                let bs = choose|bs: Seq<Seq<u8>>|
                    {
                        &&& bs.len() == commands@.len()
                        &&& forall|i: int| 0 <= i < bs.len() ==> #[trigger] encodes(commands@[i].view(), bs[i])
                        &&& buf@ == framed_all(bs)
                    };
                assert(buf@.len() == 0);
            }
        }
        if buf.len() == 0 {
            return Ok(());
        }
        match self.fs.append(self.path.as_str(), buf.as_slice()) {
            Ok(()) => Ok(()),
            Err(e) => Err(e.to_message()),
        }
    }

    fn checkpoint(&self) -> (r: Result<(), String>)
        ensures
            r is Ok,
    {
        Ok(())
    }

    fn read_all(&self) -> (r: Result<Vec<u8>, String>) {
        match self.fs.read(self.path.as_str()) {
            Ok(v) => Ok(v),
            Err(e) => Err(e.to_message()),
        }
    }
}

} // verus!
