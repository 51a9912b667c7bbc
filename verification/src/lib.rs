//! Verified ingestion pipeline for access-log records.
//!
//! Records (user agent, response time, timestamp) arrive as delimited text,
//! one record per line.  The library decodes them tolerantly (a malformed
//! line is reported, not fatal), groups the well-formed ones into bounded
//! batches, commits each batch to a store, and can serve them back filtered
//! by a time range.

pub mod batch;
pub mod codec;
pub mod ingest;
pub mod laws;
pub mod num;
pub mod parser;
pub mod record;
pub mod split;
pub mod store;
pub mod timestamp;
