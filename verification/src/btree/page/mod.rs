pub mod order;
pub mod header;
pub mod leaf;
pub mod internal;

pub use header::{PageHeader, PageType, PAGE_SIZE};
pub use leaf::{BTreeLeafPage, KeyVal, LEAF_MAX_KV, MAX_KEY_SIZE, MAX_VAL_SIZE};
pub use internal::{BTreeInternalPage, KeyEntry, INTERNAL_MAX_KEY};
