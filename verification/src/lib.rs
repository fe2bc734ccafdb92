//! An in-memory Bloom-filter database engine: a typed TLV codec for its
//! persisted objects, a bit vector, the Bloom filter itself, registries of
//! databases and filters, a binary command protocol with its decoder and
//! dispatcher, and the write-ahead-log and snapshot logic that make the
//! state durable.

pub mod bf;
pub mod bv;
pub mod cfg;
pub mod cmd;
pub mod ctl;
pub mod db;
pub mod err;
pub mod reg;
pub mod srl;
pub mod wal;
