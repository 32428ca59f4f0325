//! Cold-storage archiving: each batch of writes is serialised in a compact
//! provenance form and sealed with a SHA-256 hash over the batch's
//! timestamp, its signer and its serialised writes.

use vstd::prelude::*;
use vstd::utf8::{encode_utf8, is_ascii_chars, is_ascii_chars_encode_utf8, encode_utf8_valid_utf8, encode_utf8_decode_utf8};
use crate::codec::{le32, le64, put_bytes, put_u32, put_u64, str_from_utf8, utf8};
use crate::commands::{CommandView, WriteCommand};

verus! {

/// The SHA-256 digest of `data`, as `sha2::Sha256::digest` computes it.
pub uninterp spec fn sha256_digest(data: Seq<u8>) -> Seq<u8>;

/// Calls `sha2::Sha256::digest` on `data`. The digest of a SHA-256 hash is
/// 32 bytes; which bytes is named, being a function of `data` alone.
#[verifier::external_body]
fn sha256(data: &[u8]) -> (r: Vec<u8>)
    ensures
        r@ == sha256_digest(data@),
        r@.len() == 32,
{
    <sha2::Sha256 as sha2::Digest>::digest(data).to_vec()
}

/// The ASCII code of the lower-case hex digit of `n < 16`.
pub open spec fn hex_byte(n: u8) -> u8 {
    if n < 10 {
        (n + 48) as u8
    } else {
        (n + 87) as u8
    }
}

/// The ASCII codes of the lower-case hex digits of `d`, two per byte, high
/// digit first.
pub open spec fn hex_bytes(d: Seq<u8>) -> Seq<u8> {
    Seq::new(
        2 * d.len(),
        |j: int|
            if j % 2 == 0 {
                hex_byte(d[j / 2] / 16)
            } else {
                hex_byte(d[j / 2] % 16)
            },
    )
}

/// The lower-case hex form of `d`.
pub open spec fn hex_string(d: Seq<u8>) -> Seq<char> {
    hex_bytes(d).map_values(|b: u8| b as char)
}

/// The lower-case hex form of `d`, two digits per byte.
pub fn to_hex(d: &[u8]) -> (r: String)
    requires
        2 * d@.len() <= usize::MAX,
    ensures
        r@ == hex_string(d@),
{
    let mut out: Vec<u8> = Vec::new();
    let mut i: usize = 0;
    while i < d.len()
        invariant
            i <= d@.len(),
            2 * d@.len() <= usize::MAX,
            out@.len() == 2 * i,
            forall|j: int| 0 <= j < out@.len() ==> out@[j] == #[trigger] hex_bytes(d@)[j],
        decreases d@.len() - i,
    {
        let b = d[i];
        let hi = b / 16;
        let lo = b % 16;
        let hb: u8 = if hi < 10 { hi + 48 } else { hi + 87 };
        let lb: u8 = if lo < 10 { lo + 48 } else { lo + 87 };
        out.push(hb);
        out.push(lb);
        proof {
            assert(hex_bytes(d@)[2 * i as int] == hb);
            assert(hex_bytes(d@)[2 * i + 1] == lb);
        }
        i = i + 1;
    }
    let ghost chars = hex_string(d@);
    proof {
        assert(out@ =~= hex_bytes(d@));
        assert forall|j: int| 0 <= j < chars.len() implies '\0' <= #[trigger] chars[j] <= '\u{7f}' by {
            assert(out@[j] < 128);
        }
        assert(is_ascii_chars(chars));
        is_ascii_chars_encode_utf8(chars);
        assert(encode_utf8(chars) =~= out@);
        encode_utf8_valid_utf8(chars);
        encode_utf8_decode_utf8(chars);
    }
    let s = str_from_utf8(out.as_slice()).unwrap();
    s.to_owned()
}

/// The provenance form of a write: a tag naming its kind, then the
/// entity's id as eight little-endian bytes, or for a batch its number of
/// items as four.
pub open spec fn spec_serialize(c: CommandView) -> Seq<u8> {
    match c {
        CommandView::Insert { entity_id, .. } => utf8("INSERT:"@) + le64(entity_id as u64),
        CommandView::InsertFast { entity_id, .. } => utf8("INSERT_FAST:"@) + le64(entity_id as u64),
        CommandView::BatchInsert(items) => utf8("BATCH_INSERT:"@) + le32(items.len() as u32),
        CommandView::Delete { entity_id } => utf8("DELETE:"@) + le64(entity_id as u64),
    }
}

/// The provenance form of each write of `cs`, in order, each followed by
/// a newline.
pub open spec fn spec_payload(cs: Seq<CommandView>) -> Seq<u8>
    decreases cs.len(),
{
    if cs.len() == 0 {
        Seq::empty()
    } else {
        spec_payload(cs.drop_last()) + spec_serialize(cs.last()) + seq![10u8]
    }
}

/// The provenance forms of each write of `cs`, in order.
pub open spec fn spec_serialized_all(cs: Seq<CommandView>) -> Seq<u8>
    decreases cs.len(),
{
    if cs.len() == 0 {
        Seq::empty()
    } else {
        spec_serialized_all(cs.drop_last()) + spec_serialize(cs.last())
    }
}

/// The views of a batch of writes.
pub open spec fn views(cs: Seq<WriteCommand>) -> Seq<CommandView> {
    cs.map_values(|c: WriteCommand| c.view())
}

/// The provenance form of a write.
pub fn serialize_command(cmd: &WriteCommand) -> (r: Vec<u8>)
    ensures
        r@ == spec_serialize(cmd.view()),
{
    let mut buf: Vec<u8> = Vec::new();
    match cmd {
        WriteCommand::Insert { entity_id, .. } => {
            put_bytes(&mut buf, "INSERT:".as_bytes());
            put_u64(&mut buf, *entity_id as u64);
        },
        WriteCommand::InsertFast { entity_id, .. } => {
            put_bytes(&mut buf, "INSERT_FAST:".as_bytes());
            put_u64(&mut buf, *entity_id as u64);
        },
        WriteCommand::BatchInsert(items) => {
            put_bytes(&mut buf, "BATCH_INSERT:".as_bytes());
            put_u32(&mut buf, items.len() as u32);
        },
        WriteCommand::Delete { entity_id } => {
            put_bytes(&mut buf, "DELETE:".as_bytes());
            put_u64(&mut buf, *entity_id as u64);
        },
    }
    buf
}

/// The ASCII decimal digits of `n`.
pub open spec fn decimal_bytes(n: nat) -> Seq<u8>
    decreases n,
{
    if n < 10 {
        seq![(n + 48) as u8]
    } else {
        decimal_bytes(n / 10).push(((n % 10) + 48) as u8)
    }
}

/// Appends the ASCII decimal digits of `n`.
pub fn put_decimal(buf: &mut Vec<u8>, n: u64)
    ensures
        final(buf)@ == old(buf)@ + decimal_bytes(n as nat),
    decreases n,
{
    if n < 10 {
        buf.push(n as u8 + 48);
    } else {
        put_decimal(buf, n / 10);
        buf.push((n % 10) as u8 + 48);
        assert(buf@ =~= old(buf)@ + decimal_bytes(n as nat));
    }
}

/// The entry of a sealed batch in the archive file: a header naming the
/// timestamp, the signer and the hash, the payload, and a closing rule.
pub open spec fn spec_entry(timestamp: u64, signer: Seq<char>, hash_hex: Seq<char>, payload: Seq<u8>) -> Seq<u8> {
    utf8("=== ARCHIVE BATCH ===\nTimestamp: "@) + decimal_bytes(timestamp as nat) + utf8("\nSigner: "@) + utf8(signer)
        + utf8("\nHash: "@) + utf8(hash_hex) + utf8("\n"@) + payload + utf8("=====================\n\n"@)
}

/// A sealed batch: its hash in hex and the entry to append to the archive.
pub struct ArchiveRecord {
    pub hash_hex: String,
    pub entry: Vec<u8>,
}

/// Seals batches of writes under one signer, for an archive file.
pub struct ColdStorageArchiver {
    pub archive_path: String,
    pub signer_id: String,
}

impl ColdStorageArchiver {
    /// An archiver writing to `archive_path` and signing as `signer_id`.
    pub fn new(archive_path: &str, signer_id: &str) -> (a: Self)
        ensures
            a.archive_path@ == archive_path@,
            a.signer_id@ == signer_id@,
    {
        ColdStorageArchiver { archive_path: archive_path.to_owned(), signer_id: signer_id.to_owned() }
    }

    /// The bytes the batch's hash covers: the timestamp as eight
    /// little-endian bytes, the signer, and the provenance form of each
    /// write.
    pub open spec fn hash_input(&self, cs: Seq<CommandView>, timestamp: u64) -> Seq<u8> {
        le64(timestamp) + utf8(self.signer_id@) + spec_serialized_all(cs)
    }

    /// Seals `commands` at `timestamp`: the hex SHA-256 of the hashed bytes,
    /// and the archive entry whose payload holds the provenance forms of the
    /// writes, one per line.
    pub fn seal_batch(&self, commands: &[WriteCommand], timestamp: u64) -> (r: ArchiveRecord)
        requires
            self.hash_input(views(commands@), timestamp).len() <= usize::MAX,
        ensures
            r.hash_hex@ == hex_string(sha256_digest(self.hash_input(views(commands@), timestamp))),
            r.entry@ == spec_entry(timestamp, self.signer_id@, r.hash_hex@, spec_payload(views(commands@))),
    {
        let mut input: Vec<u8> = Vec::new();
        put_u64(&mut input, timestamp);
        put_bytes(&mut input, self.signer_id.as_str().as_bytes());
        let ghost head = input@;
        let mut payload: Vec<u8> = Vec::new();
        let mut i: usize = 0;
        while i < commands.len()
            invariant
                i <= commands@.len(),
                head == le64(timestamp) + utf8(self.signer_id@),
                input@ == head + spec_serialized_all(views(commands@).take(i as int)),
                payload@ == spec_payload(views(commands@).take(i as int)),
                self.hash_input(views(commands@), timestamp).len() <= usize::MAX,
            decreases commands@.len() - i,
        {
            let ser = serialize_command(&commands[i]);
            proof {
                let vs = views(commands@);
                assert(vs.take(i + 1).drop_last() =~= vs.take(i as int));
                assert(vs.take(i + 1).last() == commands@[i as int].view());
                lemma_serialized_prefix(vs, i + 1);
            }
            put_bytes(&mut input, ser.as_slice());
            put_bytes(&mut payload, ser.as_slice());
            payload.push(10u8);
            proof {
                assert(input@ =~= head + spec_serialized_all(views(commands@).take(i + 1)));
                assert(payload@ =~= spec_payload(views(commands@).take(i + 1)));
            }
            i = i + 1;
        }
        proof {
            assert(views(commands@).take(commands@.len() as int) =~= views(commands@));
        }
        let digest = sha256(input.as_slice());
        let hash_hex = to_hex(digest.as_slice());
        let mut entry: Vec<u8> = Vec::new();
        put_bytes(&mut entry, "=== ARCHIVE BATCH ===\nTimestamp: ".as_bytes());
        put_decimal(&mut entry, timestamp);
        put_bytes(&mut entry, "\nSigner: ".as_bytes());
        put_bytes(&mut entry, self.signer_id.as_str().as_bytes());
        put_bytes(&mut entry, "\nHash: ".as_bytes());
        put_bytes(&mut entry, hash_hex.as_str().as_bytes());
        put_bytes(&mut entry, "\n".as_bytes());
        put_bytes(&mut entry, payload.as_slice());
        put_bytes(&mut entry, "=====================\n\n".as_bytes());
        ArchiveRecord { hash_hex, entry }
    }
}

/// The serialised prefix of a batch is no longer than the whole.
proof fn lemma_serialized_prefix(cs: Seq<CommandView>, n: int)
    requires
        0 <= n <= cs.len(),
    ensures
        spec_serialized_all(cs.take(n)).len() <= spec_serialized_all(cs).len(),
    decreases cs.len() - n,
{
    if n < cs.len() {
        lemma_serialized_prefix(cs, n + 1);
        assert(cs.take(n + 1).drop_last() =~= cs.take(n));
    } else {
        assert(cs.take(n) =~= cs);
    }
}

} // verus!
