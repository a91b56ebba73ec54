//! An embedded vector store: records are scoped by namespace, index and
//! partition, stored in a binary format in a key-value store, and queried
//! by exact scans or through an approximate index, with metadata filters.

pub mod ann;
pub mod codec;
pub mod json;
pub mod model;
pub mod storage;
pub mod store;
pub mod validation;
pub mod filter;
pub mod filter_laws;
pub mod keys;
pub mod query;

pub use filter::{metadata_matches_filter, MetadataFilterIndex, VectorMetadata};
pub use json::JsonValue;
pub use model::{
    KeyValue, StoreConfig, StoreError, StoreStats, VectorDeleteInput, VectorDeleteResult,
    VectorError, VectorQueryMode, VectorUpsertResult,
};
pub use storage::Store;
pub use store::{VectorStore, VectorUpsertInput, VectorUpsertRecord};
