//! An artifact registry for versioned extensions: bundle ingestion, version
//! bookkeeping and a ranked full-text search index.

pub mod auth;
pub mod index;
pub mod ingest;
pub mod metadata;
pub mod rank;
pub mod search;
pub mod token;
pub mod types;
