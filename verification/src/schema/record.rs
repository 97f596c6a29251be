//! Rows as named columns, and ranges over columns.

use vstd::prelude::*;
use vstd::string::StringExecFns;
use crate::text::str_eq;
use super::value::{Value, ValueView};

verus! {

/// The characters of each string.
pub open spec fn string_views(s: Seq<String>) -> Seq<Seq<char>> {
    s.map_values(|x: String| x@)
}

/// The value of each value.
pub open spec fn value_views(s: Seq<Value>) -> Seq<ValueView> {
    s.map_values(|x: Value| x@)
}

/// The first position of `col` in `cols`.
pub open spec fn first_col_index(cols: Seq<Seq<char>>, col: Seq<char>) -> Option<int>
    decreases cols.len(),
{
    if cols.len() == 0 {
        None
    } else if cols[0] == col {
        Some(0)
    } else {
        match first_col_index(cols.drop_first(), col) {
            Some(i) => Some(i + 1),
            None => None,
        }
    }
}

/// The position that a lookup of `col` gives: the first column with that name,
/// where a value stands at that position.
pub open spec fn lookup_index(cols: Seq<Seq<char>>, nvals: nat, col: Seq<char>) -> Option<int> {
    match first_col_index(cols, col) {
        Some(i) => if i < nvals {
            Some(i)
        } else {
            None
        },
        None => None,
    }
}

pub proof fn lemma_first_col_index(cols: Seq<Seq<char>>, col: Seq<char>)
    ensures
        match first_col_index(cols, col) {
            Some(i) => 0 <= i < cols.len() && cols[i] == col && forall|j: int|
                0 <= j < i ==> cols[j] != col,
            None => forall|j: int| 0 <= j < cols.len() ==> cols[j] != col,
        },
    decreases cols.len(),
{
    if cols.len() > 0 && cols[0] != col {
        let t = cols.drop_first();
        lemma_first_col_index(t, col);
        assert(forall|j: int| 0 <= j < t.len() ==> t[j] == cols[j + 1]);
        match first_col_index(t, col) {
            Some(i) => {
                assert forall|j: int| 0 <= j < i + 1 implies cols[j] != col by {
                    if j > 0 {
                        assert(cols[j] == t[j - 1]);
                    }
                }
            },
            None => {
                assert forall|j: int| 0 <= j < cols.len() implies cols[j] != col by {
                    if j > 0 {
                        assert(cols[j] == t[j - 1]);
                    }
                }
            },
        }
    }
}

pub proof fn lemma_first_col_index_is(cols: Seq<Seq<char>>, col: Seq<char>, i: int)
    requires
        0 <= i <= cols.len(),
        forall|j: int| 0 <= j < i ==> cols[j] != col,
        i < cols.len() ==> cols[i] == col,
    ensures
        first_col_index(cols, col) == (if i < cols.len() {
            Some(i)
        } else {
            None::<int>
        }),
    decreases cols.len(),
{
    if cols.len() > 0 && i > 0 {
        let t = cols.drop_first();
        assert(forall|j: int| 0 <= j < t.len() ==> t[j] == cols[j + 1]);
        lemma_first_col_index_is(t, col, i - 1);
    }
}

/// Finds the first column named `col`.
fn position_of(cols: &Vec<String>, col: &str) -> (r: Option<usize>)
    ensures
        match r {
            Some(k) => first_col_index(string_views(cols@), col@) == Some(k as int),
            None => first_col_index(string_views(cols@), col@) is None,
        },
{
    let mut i: usize = 0;
    while i < cols.len()
        invariant
            i <= cols@.len(),
            forall|j: int| 0 <= j < i ==> string_views(cols@)[j] != col@,
        decreases cols@.len() - i,
    {
        if str_eq(cols[i].as_str(), col) {
            proof {
                lemma_first_col_index_is(string_views(cols@), col@, i as int);
            }
            return Some(i);
        }
        i = i + 1;
    }
    proof {
        lemma_first_col_index_is(string_views(cols@), col@, i as int);
    }
    None
}

/// Whether some column is named `col`.
pub(crate) fn contains_col(cols: &Vec<String>, col: &str) -> (r: bool)
    ensures
        r == (first_col_index(string_views(cols@), col@) is Some),
{
    position_of(cols, col).is_some()
}

/// A record represents a row in a table
#[derive(Debug, Clone, PartialEq)]
pub struct Record {
    pub cols: Vec<String>,
    pub vals: Vec<Value>,
}

/// A row as a mathematical value.
pub struct RecordView {
    pub cols: Seq<Seq<char>>,
    pub vals: Seq<ValueView>,
}

impl View for Record {
    type V = RecordView;

    open spec fn view(&self) -> RecordView {
        RecordView { cols: string_views(self.cols@), vals: value_views(self.vals@) }
    }
}

impl Record {
    pub fn new() -> (r: Self)
        ensures
            r@.cols == Seq::<Seq<char>>::empty(),
            r@.vals == Seq::<ValueView>::empty(),
    {
        let r = Self { cols: Vec::new(), vals: Vec::new() };
        assert(r@.cols =~= Seq::<Seq<char>>::empty());
        assert(r@.vals =~= Seq::<ValueView>::empty());
        r
    }

    /// Add a string column
    pub fn add_str(self, col: &str, val: Vec<u8>) -> (r: Self)
        ensures
            r@.cols == self@.cols.push(col@),
            r@.vals == self@.vals.push(ValueView::Bytes(val@)),
    {
        self.add(col, Value::Bytes(val))
    }

    /// Add an int64 column
    pub fn add_int64(self, col: &str, val: i64) -> (r: Self)
        ensures
            r@.cols == self@.cols.push(col@),
            r@.vals == self@.vals.push(ValueView::Int64(val)),
    {
        self.add(col, Value::Int64(val))
    }

    /// Add a value directly
    pub fn add(self, col: &str, val: Value) -> (r: Self)
        ensures
            r@.cols == self@.cols.push(col@),
            r@.vals == self@.vals.push(val@),
    {
        let mut s = self;
        let ghost old_cols = s.cols@;
        let ghost old_vals = s.vals@;
        let ghost v = val@;
        s.cols.push(String::from_str(col));
        s.vals.push(val);
        assert(string_views(s.cols@) =~= string_views(old_cols).push(col@));
        assert(value_views(s.vals@) =~= value_views(old_vals).push(v));
        s
    }

    /// Get value by column name
    pub fn get(&self, col: &str) -> (r: Option<&Value>)
        ensures
            match lookup_index(self@.cols, self@.vals.len(), col@) {
                Some(i) => r matches Some(x) && x@ == self@.vals[i],
                None => r is None,
            },
    {
        proof {
            lemma_first_col_index(string_views(self.cols@), col@);
            assert(self@.vals.len() == self.vals@.len());
            assert(forall|i: int| 0 <= i < self.vals@.len() ==> self@.vals[i] == #[trigger] self.vals@[i]@);
        }
        match position_of(&self.cols, col) {
            Some(idx) => {
                assert(first_col_index(self@.cols, col@) == Some(idx as int));
                if idx < self.vals.len() {
                    Some(&self.vals[idx])
                } else {
                    None
                }
            },
            None => None,
        }
    }

    /// Get mutable value by column name
    pub fn get_mut(&mut self, col: &str) -> (r: Option<&mut Value>)
        ensures
            match lookup_index(old(self)@.cols, old(self)@.vals.len(), col@) {
                Some(i) => (r matches Some(x) && *x == old(self).vals@[i] && final(self).cols@ == old(self).cols@
                    && final(self).vals@ == old(self).vals@.update(i, *final(x))),
                None => r is None && *final(self) == *old(self),
            },
    {
        proof {
            lemma_first_col_index(string_views(self.cols@), col@);
            assert(self@.vals.len() == self.vals@.len());
            assert(forall|i: int| 0 <= i < self.vals@.len() ==> self@.vals[i] == #[trigger] self.vals@[i]@);
        }
        match position_of(&self.cols, col) {
            Some(idx) => {
                assert(first_col_index(self@.cols, col@) == Some(idx as int));
                if idx < self.vals.len() {
                    Some(&mut self.vals[idx])
                } else {
                    None
                }
            },
            None => None,
        }
    }

    /// Check if record is valid (same number of columns and values)
    pub fn is_valid(&self) -> (r: bool)
        ensures
            r == (self@.cols.len() == self@.vals.len()),
    {
        self.cols.len() == self.vals.len()
    }

    /// Get number of columns
    pub fn len(&self) -> (r: usize)
        ensures
            r == self@.cols.len(),
    {
        self.cols.len()
    }

    /// Check if empty
    pub fn is_empty(&self) -> (r: bool)
        ensures
            r == (self@.cols.len() == 0),
    {
        self.cols.is_empty()
    }
}

impl Default for Record {
    fn default() -> (r: Self)
        ensures
            r@.cols == Seq::<Seq<char>>::empty(),
            r@.vals == Seq::<ValueView>::empty(),
    {
        Self::new()
    }
}

/// A range record for range queries
#[derive(Debug, Clone, PartialEq)]
pub struct RangeRecord {
    pub cols: Vec<String>,
    pub val_starts: Vec<Value>,
    pub val_ends: Vec<Value>,
}

/// A range record as a mathematical value.
pub struct RangeRecordView {
    pub cols: Seq<Seq<char>>,
    pub val_starts: Seq<ValueView>,
    pub val_ends: Seq<ValueView>,
}

impl View for RangeRecord {
    type V = RangeRecordView;

    open spec fn view(&self) -> RangeRecordView {
        RangeRecordView {
            cols: string_views(self.cols@),
            val_starts: value_views(self.val_starts@),
            val_ends: value_views(self.val_ends@),
        }
    }
}

impl RangeRecord {
    pub fn new() -> (r: Self)
        ensures
            r@.cols == Seq::<Seq<char>>::empty(),
            r@.val_starts == Seq::<ValueView>::empty(),
            r@.val_ends == Seq::<ValueView>::empty(),
    {
        let r = Self { cols: Vec::new(), val_starts: Vec::new(), val_ends: Vec::new() };
        assert(r@.cols =~= Seq::<Seq<char>>::empty());
        assert(r@.val_starts =~= Seq::<ValueView>::empty());
        assert(r@.val_ends =~= Seq::<ValueView>::empty());
        r
    }

    /// Add a range for a column
    pub fn add_range(self, col: &str, start: Value, end: Value) -> (r: Self)
        ensures
            r@.cols == self@.cols.push(col@),
            r@.val_starts == self@.val_starts.push(start@),
            r@.val_ends == self@.val_ends.push(end@),
    {
        let mut s = self;
        let ghost old_cols = s.cols@;
        let ghost old_starts = s.val_starts@;
        let ghost old_ends = s.val_ends@;
        let ghost a = start@;
        let ghost b = end@;
        s.cols.push(String::from_str(col));
        s.val_starts.push(start);
        s.val_ends.push(end);
        assert(string_views(s.cols@) =~= string_views(old_cols).push(col@));
        assert(value_views(s.val_starts@) =~= value_views(old_starts).push(a));
        assert(value_views(s.val_ends@) =~= value_views(old_ends).push(b));
        s
    }

    /// Add an int64 range
    pub fn add_int64_range(self, col: &str, start: i64, end: i64) -> (r: Self)
        ensures
            r@.cols == self@.cols.push(col@),
            r@.val_starts == self@.val_starts.push(ValueView::Int64(start)),
            r@.val_ends == self@.val_ends.push(ValueView::Int64(end)),
    {
        self.add_range(col, Value::Int64(start), Value::Int64(end))
    }

    /// Check if range record is valid
    pub fn is_valid(&self) -> (r: bool)
        ensures
            r == (self@.cols.len() == self@.val_starts.len() && self@.cols.len()
                == self@.val_ends.len()),
    {
        self.cols.len() == self.val_starts.len() && self.cols.len() == self.val_ends.len()
    }
}

impl Default for RangeRecord {
    fn default() -> (r: Self)
        ensures
            r@.cols == Seq::<Seq<char>>::empty(),
            r@.val_starts == Seq::<ValueView>::empty(),
            r@.val_ends == Seq::<ValueView>::empty(),
    {
        Self::new()
    }
}

} // verus!
