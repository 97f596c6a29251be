pub mod value;
pub mod record;
pub mod table;

pub use record::{RangeRecord, Record};
pub use value::{Value, ValueType};
pub use table::{get_meta_tdef, get_table_tdef, TableDef};
