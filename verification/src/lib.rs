//! A durable, append-only write-ahead log for an embedded key-value store,
//! together with the CRC32C (Castagnoli) integrity engine that protects
//! every record it writes.

pub mod wal;
