//! Core persistence layer of an embedded ordered key/value store:
//! a crash-safe, block-framed write-ahead log with CRC-protected
//! fragmentation, the in-memory ordered table it replays into, and the
//! sorted-string-table block builder that shares its varint codec.
//!
//! All I/O is left to the caller: the log writer and reader here work on
//! in-memory byte buffers, so that the framing, checksumming and recovery
//! logic is fully verified and an enclosing runtime only moves bytes
//! between these buffers and the file system.

pub mod db;
pub mod encoding;
pub mod mem_table;
pub mod sorted_stable;
pub mod vfs;
pub mod wal;
pub mod wal_laws;
