//! A small database engine: a paged B+ tree stored in fixed-size blocks,
//! a key-value store on top of it, and a schema layer that encodes rows.

pub mod error;
pub mod codec;
pub mod text;

pub use error::{DbError, DbResult, IoErrorKind};
pub mod btree;
pub mod storage;
pub mod memtree;

pub use storage::{KVIterator, KVStore};
pub mod schema;

pub use schema::{get_meta_tdef, get_table_tdef, RangeRecord, Record, TableDef, Value, ValueType};
