//! A small key-value store: a write-ahead log of checksummed entries, an
//! in-memory index rebuilt by replaying that log, and an encoding of typed
//! table rows into key and value byte strings.
pub mod le;
pub mod buf;
pub mod checksum;
pub mod cell;
pub mod kv_entry;
pub mod kv;
pub mod row;
