pub mod kv_store;

pub use kv_store::{KVIterator, KVStore};
