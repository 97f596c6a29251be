pub mod page;
pub mod disk;
pub mod walk;
pub mod iterator;
pub mod grow;
pub mod frame;
pub mod small;

pub use disk::{BPTreeDisk, PageNode};
pub use iterator::BTreeIterator;
