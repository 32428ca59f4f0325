//! The platform layer: the file system, message queues and thread-local
//! storage that the engine is written against, and a spin-then-yield backoff.

use vstd::prelude::*;
use crate::commands::PartitionCommand;

verus! {

/// Why a file operation failed.
#[derive(Debug, Clone, PartialEq, Eq)]
pub enum IoError {
    NotFound,
    PermissionDenied,
    AlreadyExists,
    Other(&'static str),
}

/// The message of an error: the variant's name, or the message it carries.
pub open spec fn io_message(e: IoError) -> Seq<char> {
    match e {
        IoError::NotFound => "NotFound"@,
        IoError::PermissionDenied => "PermissionDenied"@,
        IoError::AlreadyExists => "AlreadyExists"@,
        IoError::Other(msg) => msg@,
    }
}

impl IoError {
    /// The error as a message: the variant's name, or the message it carries.
    pub fn to_message(&self) -> (r: String)
        ensures
            r@ == io_message(*self),
    {
        match self {
            IoError::NotFound => "NotFound".to_string(),
            IoError::PermissionDenied => "PermissionDenied".to_string(),
            IoError::AlreadyExists => "AlreadyExists".to_string(),
            IoError::Other(msg) => (*msg).to_string(),
        }
    }
}

/// The bytes `offset .. offset + len` of a whole file's contents, or an error
/// when the file is shorter than that.
pub fn slice_range(all: &[u8], offset: u64, len: usize) -> (r: Result<Vec<u8>, IoError>)
    ensures
        match r {
            Ok(v) => offset as usize + len <= all@.len() && v@ == all@.subrange(
                offset as usize as int,
                offset as usize + len,
            ),
            Err(e) => offset as usize + len > all@.len() && e == IoError::Other("Read out of bounds"),
        },
{
    let start = offset as usize;
    let alen = all.len();
    if start <= alen && len <= alen - start {
        let mut v: Vec<u8> = Vec::new();
        let mut i: usize = 0;
        while i < len
            invariant
                alen == all@.len(),
                start + len <= all@.len(),
                i <= len,
                v@ == all@.subrange(start as int, start + i),
            decreases len - i,
        {
            v.push(all[start + i]);
            i = i + 1;
            assert(v@ =~= all@.subrange(start as int, start + i));
        }
        Ok(v)
    } else {
        Err(IoError::Other("Read out of bounds"))
    }
}

/// The file operations that storage and logs are written against. Nothing
/// is assumed of what an implementation returns.
pub trait FileSystem: Send + Sync {
    /// Replaces (or creates) the file at `path` with `data`.
    fn write(&self, path: &str, data: &[u8]) -> Result<(), IoError>;

    /// The whole contents of the file at `path`.
    fn read(&self, path: &str) -> Result<Vec<u8>, IoError>;

    /// Appends `data` to the file at `path`, creating it when missing.
    fn append(&self, path: &str, data: &[u8]) -> Result<(), IoError>;

    /// Whether a file or directory exists at `path`.
    fn file_exists(&self, path: &str) -> bool;

    /// Creates `path` and its missing parents.
    fn create_dir_all(&self, path: &str) -> Result<(), IoError>;

    /// The names of the entries of the directory at `path`.
    fn read_dir(&self, path: &str) -> Result<Vec<String>, IoError>;

    /// The `len` bytes of the file at `path` from `offset`. By default, the
    /// whole file is read and sliced.
    fn read_range(&self, path: &str, offset: u64, len: usize) -> (r: Result<Vec<u8>, IoError>)
        default_ensures
            r matches Ok(v) ==> v@.len() == len,
    {
        match self.read(path) {
            Ok(all) => slice_range(all.as_slice(), offset, len),
            Err(e) => Err(e),
        }
    }

    /// The size of the file at `path`. By default, the whole file is read and
    /// its length returned.
    fn file_size(&self, path: &str) -> Result<u64, IoError> {
        match self.read(path) {
            Ok(all) => Ok(all.len() as u64),
            Err(e) => Err(e),
        }
    }
}

/// A file system that stores nothing: every file exists, is empty, and every
/// write succeeds.
pub struct NullFileSystem;

impl FileSystem for NullFileSystem {
    fn write(&self, path: &str, data: &[u8]) -> (r: Result<(), IoError>)
        ensures
            r is Ok,
    {
        Ok(())
    }

    fn read(&self, path: &str) -> (r: Result<Vec<u8>, IoError>)
        ensures
            r matches Ok(v) && v@.len() == 0,
    {
        Ok(Vec::new())
    }

    fn append(&self, path: &str, data: &[u8]) -> (r: Result<(), IoError>)
        ensures
            r is Ok,
    {
        Ok(())
    }

    fn read_range(&self, path: &str, offset: u64, len: usize) -> (r: Result<Vec<u8>, IoError>)
        ensures
            r matches Ok(v) && v@.len() == 0,
    {
        Ok(Vec::new())
    }

    fn file_size(&self, path: &str) -> (r: Result<u64, IoError>)
        ensures
            r == Ok::<u64, IoError>(0),
    {
        Ok(0)
    }

    fn file_exists(&self, path: &str) -> (b: bool)
        ensures
            b,
    {
        true
    }

    fn create_dir_all(&self, path: &str) -> (r: Result<(), IoError>)
        ensures
            r is Ok,
    {
        Ok(())
    }

    fn read_dir(&self, path: &str) -> (r: Result<Vec<String>, IoError>)
        ensures
            r matches Ok(v) && v@.len() == 0,
    {
        Ok(Vec::new())
    }
}

/// The receiving end of a partition's command queue.
pub trait MessageQueue: Send + Sync {
    /// Waits for the next command.
    fn recv(&self) -> Result<PartitionCommand, String>;

    /// The next command if one is queued, else an error.
    fn try_recv(&self) -> Result<PartitionCommand, String>;
}

/// The sending end of a partition's command queue.
pub trait MessageSender: Send + Sync {
    /// Enqueues `cmd`, waiting while the queue is full.
    fn send(&self, cmd: PartitionCommand) -> Result<(), String>;
}

/// Per-thread storage for targets without the standard library.
pub trait ThreadLocalProvider<T>: Send + Sync {
    /// Runs `f` on the current thread's value, if one was set.
    fn with<F, R>(&self, f: F) -> R where F: FnOnce(Option<&T>) -> R;

    /// Sets the current thread's value.
    fn set(&self, val: T);
}

/// Hints to the processor that the caller is spinning.
#[verifier::external_body]
fn spin_hint() {
    core::hint::spin_loop();
}

/// Spin-then-yield waiting: a waiter spins while the backoff is not
/// completed, and yields its thread afterwards.
pub struct Backoff {
    spins: u32,
}

/// Number of spins after which a backoff is completed.
pub const BACKOFF_SPIN_LIMIT: u32 = 100;

impl Backoff {
    /// How many times the waiter has spun.
    pub closed spec fn spins(&self) -> nat {
        self.spins as nat
    }

    /// A backoff that has not spun.
    pub fn new() -> (b: Self)
        ensures
            b.spins() == 0,
    {
        Backoff { spins: 0 }
    }

    /// Spins once.
    pub fn snooze(&mut self)
        requires
            old(self).spins() < u32::MAX,
        ensures
            final(self).spins() == old(self).spins() + 1,
    {
        spin_hint();
        self.spins = self.spins + 1;
    }

    /// Whether the waiter has spun more than [`BACKOFF_SPIN_LIMIT`] times.
    pub fn is_completed(&self) -> (b: bool)
        ensures
            b == (self.spins() > BACKOFF_SPIN_LIMIT),
    {
        self.spins > BACKOFF_SPIN_LIMIT
    }
}

impl Default for Backoff {
    fn default() -> (b: Self)
        ensures
            b.spins() == 0,
    {
        Backoff::new()
    }
}

} // verus!
