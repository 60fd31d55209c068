//! An append-only, log-structured key-value store.
//!
//! The store keeps a durable map from byte-string keys to byte-string values
//! in one growable log of checksummed records, together with an in-memory
//! index from each key to the offset of its most recent record.
//!
//! - [`codec`] defines the fixed binary record format and its encoding,
//!   decoding and sequential scanning.
//! - [`store`] owns the log bytes and the index and offers the public
//!   get/insert/update/delete/find/load operations.
//! - [`laws`] proves the properties that relate those operations: round
//!   trips, last-write-wins, tombstone visibility, idempotent loads, and the
//!   agreement of indexed lookups with full scans.
//!
//! The remaining modules are the small verified cores of the surrounding
//! utilities: a CHIP-8 opcode interpreter ([`cpu`]), a VGA colour attribute
//! ([`screen`]), locally-administered MAC addresses ([`ethernet`]), and a
//! mock file ([`file`]).

pub mod codec;
pub mod store;
pub mod laws;
pub mod cpu;
pub mod screen;
pub mod ethernet;
pub mod file;
