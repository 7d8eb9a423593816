//! An append-only log store with per-field secondary indexes.
//!
//! Files are handled as byte images: the library parses, builds and updates
//! them, and the caller moves the bytes to and from storage.
use vstd::prelude::*;

pub mod bytes;
pub mod utils;
pub mod record_error;
pub mod record_file;
pub mod log_value;
pub mod codec;
pub mod record_codec;
pub mod index_codec;
pub mod log_file;
pub mod index_file;
pub mod data_manager;
pub mod rpc_codec;
pub mod ingest;
