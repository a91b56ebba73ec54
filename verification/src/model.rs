//! The values that the store's operations take and give back, and its errors.

use vstd::prelude::*;

verus! {

/// An error of the key-value store.
#[verifier::external_type_specification]
#[verifier::external_body]
pub struct ExFeoxError(feoxdb::FeoxError);

/// An error of the approximate index.
#[verifier::external_type_specification]
#[verifier::external_body]
pub struct ExAnnError(feox_ann::AnnError);

/// An error of the JSON reader or writer.
#[verifier::external_type_specification]
#[verifier::external_body]
pub struct ExJsonError(serde_json::Error);

/// Errors of the store layer.
pub enum StoreError {
    /// The key-value store failed.
    Feox(feoxdb::FeoxError),
    /// A stored key is not valid UTF-8.
    InvalidKey,
}

/// Errors of the vector operations.
pub enum VectorError {
    Store(StoreError),
    Ann(feox_ann::AnnError),
    Json(serde_json::Error),
    /// An input was refused, or a stored record could not be read; the text
    /// says why.
    Invalid(String),
}

/// `e` is `VectorError::Invalid` with the message `msg`.
pub open spec fn is_invalid(e: VectorError, msg: Seq<char>) -> bool {
    e matches VectorError::Invalid(m) && m@ == msg
}

/// What an upsert did.
pub struct VectorUpsertResult {
    /// How many records were written.
    pub upserted: usize,
}

/// How a query is answered.
#[derive(PartialEq, Eq, Structural, Clone, Copy)]
pub enum VectorQueryMode {
    /// By scanning every record of the collection.
    Exact,
    /// Through the approximate index, when a fresh one is ready.
    Ann,
}

/// The ids to delete.
pub struct VectorDeleteInput {
    pub ids: Vec<String>,
}

/// What a delete did.
pub struct VectorDeleteResult {
    /// How many of the ids named a stored record.
    pub deleted: usize,
}

/// A stored key and its value.
pub struct KeyValue {
    pub key: String,
    pub value: Vec<u8>,
}

/// Counts of the key-value store.
pub struct StoreStats {
    pub records: usize,
    pub memory_bytes: usize,
}

/// How the key-value store is opened.
pub struct StoreConfig {
    /// A file to persist records in; in memory only when absent.
    pub device_path: Option<String>,
    pub file_size: Option<u64>,
    /// A memory limit in bytes; none when absent.
    pub max_memory: Option<usize>,
}

impl StoreConfig {
    /// The default configuration: in memory, with a 512 MiB memory limit.
    pub fn default_config() -> (r: StoreConfig)
        ensures
            r.device_path is None,
            r.file_size is None,
            r.max_memory == Some(536870912usize),
    {
        StoreConfig { device_path: None, file_size: None, max_memory: Some(512 * 1024 * 1024) }
    }
}

impl Default for StoreConfig {
    fn default() -> (r: StoreConfig)
        ensures
            r.device_path is None,
            r.file_size is None,
            r.max_memory == Some(536870912usize),
    {
        Self::default_config()
    }
}

} // verus!
