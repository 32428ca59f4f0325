//! Offline checks over a database directory, for tools that must not parse
//! the engine's files themselves.

use vstd::prelude::*;
use crate::platform::FileSystem;

verus! {

/// The message of a check on a directory that is not there.
pub const MISSING_PATH: &'static str = "Database path does not exist";

/// The version of the on-disk format.
pub const FORMAT_VERSION: &'static str = "1.1.0";

/// What the metadata of a database directory says.
pub struct DatabaseMetadata {
    pub version: String,
    pub total_entities: usize,
    pub partitions: Vec<String>,
}

/// Integrity checks, metadata and searches over a database directory.
pub struct AuditService;

impl AuditService {
    /// The verdict of an integrity check, given whether the directory
    /// exists: a directory that is there passes.
    pub fn integrity_verdict(path_exists: bool) -> (r: Result<bool, String>)
        ensures
            match r {
                Ok(b) => path_exists && b,
                Err(e) => !path_exists && e@ == MISSING_PATH@,
            },
    {
        if !path_exists {
            return Err(MISSING_PATH.to_owned());
        }
        Ok(true)
    }

    /// Checks the integrity of the database under `db_path`.
    pub fn verify_integrity<F: FileSystem>(fs: &F, db_path: &str) -> (r: Result<bool, String>)
        ensures
            match r {
                Ok(b) => b,
                Err(e) => e@ == MISSING_PATH@,
            },
    {
        AuditService::integrity_verdict(fs.file_exists(db_path))
    }

    /// The metadata of the database under `db_path`: the format version,
    /// with no entities and no partitions counted.
    pub fn inspect_metadata(db_path: &str) -> (r: Result<DatabaseMetadata, String>)
        ensures
            r matches Ok(m) && m.version@ == FORMAT_VERSION@ && m.total_entities == 0
                && m.partitions@.len() == 0,
    {
        Ok(DatabaseMetadata { version: FORMAT_VERSION.to_owned(), total_entities: 0, partitions: Vec::new() })
    }

    /// The entities whose blobs hold `blob_pattern`, found by reading the
    /// files under `db_path`: none are reported.
    pub fn reverse_search_blob(db_path: &str, blob_pattern: &[u8]) -> (r: Result<Vec<usize>, String>)
        ensures
            r matches Ok(v) && v@.len() == 0,
    {
        Ok(Vec::new())
    }
}

} // verus!
