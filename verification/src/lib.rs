//! Reader for the Microsoft Teams v2 local IndexedDB cache: LevelDB tables and
//! write-ahead logs, the Chromium IndexedDB key layout, the V8 value
//! serialization format, and the Teams conversation/message schema on top.

pub mod varint;
pub mod text;
pub mod idb;
pub mod leveldb;
pub mod index;
pub mod v8;
pub mod numbers;
pub mod util;
pub mod teams;
pub mod schema;
pub mod order;
pub mod media;
pub mod server;
pub mod ax;
pub mod clipboard;
pub mod location;
