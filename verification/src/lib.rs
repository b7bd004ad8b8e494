//! alefsdb: a typed structure database with a hierarchical namespace.

pub mod order;
pub mod value;
pub mod bytes;
pub mod strings;
pub mod fmt;
pub mod codec;
pub mod roundtrip;
pub mod decodecanon;
pub mod canon;
pub mod path;
pub mod storage;
pub mod errors;
pub mod keys;
pub mod overlay;
pub mod db;
pub mod txn;
pub mod laws;
pub mod nodes;
pub mod json;
pub mod jsonlaw;
pub mod hex;
pub mod export;
pub mod exportlaw;
pub mod query;
pub mod eval;
pub mod querylaw;
pub mod typeindex;
pub mod indexkeep;
pub mod server;
pub mod textlaw;
pub mod wire;
pub mod wal;
pub mod fsview;
pub mod bench;
