//! Table definitions: key encoding, row checking, and their own encoding.

use vstd::prelude::*;
use vstd::slice::slice_to_vec;
use vstd::string::StringExecFns;
use vstd::utf8::{decode_utf8, encode_utf8, encode_utf8_decode_utf8, encode_utf8_valid_utf8, valid_utf8};
use crate::codec::{append_bytes, append_u8, Cursor};
use crate::error::{after_prefix, eof, DbError, DbErrorView, DbResult, Decoded};
use crate::text::{push_str, string_of};
use super::record::{first_col_index, lemma_first_col_index, lookup_index, string_views, value_views,
    Record};
use super::value::{decode_value, encode_value, lemma_value_roundtrip, value_fits, Value, ValueType,
    ValueView};

verus! {

/// The text of the error that std gives for bytes that are not UTF-8.
pub uninterp spec fn utf8_error_text(bytes: Seq<u8>) -> Seq<char>;

/// Makes a string of UTF-8 bytes (std's `String::from_utf8`): a string exactly when
/// the bytes are valid UTF-8, holding the characters they encode.
#[verifier::external_body]
fn string_from_utf8(bytes: Vec<u8>) -> (r: Option<String>)
    ensures
        valid_utf8(bytes@) <==> r is Some,
        r matches Some(s) ==> s@ == decode_utf8(bytes@),
{
    String::from_utf8(bytes).ok()
}

/// The text of std's error for bytes that are not UTF-8 (the `Display` of the error
/// that `std::str::from_utf8` returns); the text is named, not stated.
#[verifier::external_body]
fn utf8_error_message(bytes: &[u8]) -> (r: String)
    requires
        !valid_utf8(bytes@),
    ensures
        r@ == utf8_error_text(bytes@),
{
    match std::str::from_utf8(bytes) {
        Err(e) => e.to_string(),
        Ok(_) => String::new(),
    }
}

/// The message of the error for bytes that are not UTF-8.
pub open spec fn invalid_utf8_message(bytes: Seq<u8>) -> Seq<char> {
    "Invalid UTF-8: "@ + utf8_error_text(bytes)
}

/// The message of the error for a missing primary key column.
pub open spec fn missing_pk_message(col: Seq<char>) -> Seq<char> {
    "Missing primary key column: "@ + col
}

/// Table definition
#[derive(Debug, Clone, PartialEq)]
pub struct TableDef {
    pub name: String,
    pub types: Vec<ValueType>,
    pub cols: Vec<String>,
    pub pkeys: u8,
    pub prefix: u8,
}

/// A table definition as a mathematical value.
pub struct TableDefView {
    pub name: Seq<char>,
    pub types: Seq<ValueType>,
    pub cols: Seq<Seq<char>>,
    pub pkeys: u8,
    pub prefix: u8,
}

impl View for TableDef {
    type V = TableDefView;

    open spec fn view(&self) -> TableDefView {
        TableDefView {
            name: self.name@,
            types: self.types@,
            cols: string_views(self.cols@),
            pkeys: self.pkeys,
            prefix: self.prefix,
        }
    }
}

/// The bytes of a run of values.
pub open spec fn encode_values(vals: Seq<ValueView>) -> Seq<u8>
    decreases vals.len(),
{
    if vals.len() == 0 {
        Seq::empty()
    } else {
        encode_values(vals.drop_last()) + encode_value(vals.last())
    }
}

/// `n` values at the front of `s`, or the first error that reading them meets.
pub open spec fn decode_values_n(s: Seq<u8>, n: nat) -> Decoded<Seq<ValueView>>
    decreases n,
{
    if n == 0 {
        Ok((Seq::empty(), 0))
    } else {
        match decode_value(s) {
            Err(e) => Err(e),
            Ok((v, k)) => match decode_values_n(s.skip(k as int), (n - 1) as nat) {
                Err(e) => Err(e),
                Ok((vs, m)) => Ok((seq![v] + vs, k + m)),
            },
        }
    }
}

/// The bytes of a key: the table's prefix, the number of values modulo 256, then
/// the values.
pub open spec fn encode_key_spec(prefix: u8, vals: Seq<ValueView>) -> Seq<u8> {
    seq![prefix, (vals.len() % 256) as u8] + encode_values(vals)
}

/// The values of a key, or the error that reading them meets.
pub open spec fn decode_key_spec(s: Seq<u8>) -> Result<Seq<ValueView>, DbErrorView> {
    if s.len() < 2 {
        Err(eof()@)
    } else {
        match decode_values_n(s.skip(2), s[1] as nat) {
            Ok((vs, _)) => Ok(vs),
            Err(e) => Err(e),
        }
    }
}

/// The bytes of a string with its UTF-8 length modulo 256 in front.
pub open spec fn encode_name(name: Seq<char>) -> Seq<u8> {
    seq![(encode_utf8(name).len() % 256) as u8] + encode_utf8(name)
}

/// The bytes of the first `n` columns and their types.
pub open spec fn encode_cols(cols: Seq<Seq<char>>, types: Seq<ValueType>, n: nat) -> Seq<u8>
    decreases n,
{
    if n == 0 {
        Seq::empty()
    } else {
        encode_cols(cols, types, (n - 1) as nat) + encode_name(cols[n - 1]) + seq![
            types[n - 1].spec_code(),
        ]
    }
}

/// The bytes of a table definition: its name, prefix, number of primary key
/// columns, number of columns modulo 256, then each column with its type, as many
/// as there are both columns and types.
pub open spec fn encode_table(t: TableDefView) -> Seq<u8> {
    let n = if t.cols.len() <= t.types.len() {
        t.cols.len()
    } else {
        t.types.len()
    };
    encode_name(t.name) + seq![t.prefix, t.pkeys, (t.cols.len() % 256) as u8] + encode_cols(
        t.cols,
        t.types,
        n,
    )
}

/// A string at the front of `s` and the bytes it takes, or the error that reading
/// it meets.
pub open spec fn decode_name(s: Seq<u8>) -> Decoded<Seq<char>> {
    if s.len() < 1 {
        Err(eof()@)
    } else if s.len() < 1 + s[0] {
        Err(eof()@)
    } else if !valid_utf8(s.subrange(1, 1 + s[0])) {
        Err(DbErrorView::InvalidFormat(invalid_utf8_message(s.subrange(1, 1 + s[0]))))
    } else {
        Ok((decode_utf8(s.subrange(1, 1 + s[0])), (1 + s[0]) as nat))
    }
}

/// A column and its type at the front of `s`, or the error that reading them meets.
pub open spec fn decode_col(s: Seq<u8>) -> Decoded<(Seq<char>, ValueType)> {
    match decode_name(s) {
        Err(e) => Err(e),
        Ok((c, k)) => if s.len() < k + 1 {
            Err(eof()@)
        } else {
            match ValueType::spec_from_code(s[k as int]) {
                Err(e) => Err(e),
                Ok(t) => Ok(((c, t), k + 1)),
            }
        },
    }
}

/// `n` columns at the front of `s`, or the first error that reading them meets.
pub open spec fn decode_cols(s: Seq<u8>, n: nat) -> Decoded<Seq<(Seq<char>, ValueType)>>
    decreases n,
{
    if n == 0 {
        Ok((Seq::empty(), 0))
    } else {
        match decode_col(s) {
            Err(e) => Err(e),
            Ok((v, k)) => match decode_cols(s.skip(k as int), (n - 1) as nat) {
                Err(e) => Err(e),
                Ok((vs, m)) => Ok((seq![v] + vs, k + m)),
            },
        }
    }
}

/// The table definition that `s` holds, or the error that reading it meets.
pub open spec fn decode_table(s: Seq<u8>) -> Result<TableDefView, DbErrorView> {
    match decode_name(s) {
        Err(e) => Err(e),
        Ok((name, k)) => {
            let r = s.skip(k as int);
            if r.len() < 3 {
                Err(eof()@)
            } else {
                match decode_cols(r.skip(3), r[2] as nat) {
                    Err(e) => Err(e),
                    Ok((cs, _)) => Ok(
                        TableDefView {
                            name,
                            types: cs.map_values(|c: (Seq<char>, ValueType)| c.1),
                            cols: cs.map_values(|c: (Seq<char>, ValueType)| c.0),
                            pkeys: r[1],
                            prefix: r[0],
                        },
                    ),
                }
            }
        },
    }
}

/// The columns of a row reordered to follow `cols`: each column of `cols` that the
/// row has, with the value that a lookup gives.
pub open spec fn reorder(cols: Seq<Seq<char>>, rec_cols: Seq<Seq<char>>, rec_vals: Seq<ValueView>) -> (
    Seq<Seq<char>>,
    Seq<ValueView>,
)
    decreases cols.len(),
{
    if cols.len() == 0 {
        (Seq::empty(), Seq::empty())
    } else {
        let (cs, vs) = reorder(cols.drop_last(), rec_cols, rec_vals);
        match lookup_index(rec_cols, rec_vals.len(), cols.last()) {
            Some(i) => (cs.push(cols.last()), vs.push(rec_vals[i])),
            None => (cs, vs),
        }
    }
}

/// Reordering keeps, in the table's order, exactly the table's columns that the
/// row holds with a value, and gives each the value that the row holds for it.
pub proof fn law_reorder(cols: Seq<Seq<char>>, rec_cols: Seq<Seq<char>>, rec_vals: Seq<ValueView>)
    ensures
        reorder(cols, rec_cols, rec_vals).0 == cols.filter(
            |c: Seq<char>| lookup_index(rec_cols, rec_vals.len(), c) is Some,
        ),
        reorder(cols, rec_cols, rec_vals).1.len() == reorder(cols, rec_cols, rec_vals).0.len(),
        forall|k: int|
            0 <= k < reorder(cols, rec_cols, rec_vals).1.len() ==> (lookup_index(
                rec_cols,
                rec_vals.len(),
                #[trigger] reorder(cols, rec_cols, rec_vals).0[k],
            ) matches Some(ix) && reorder(cols, rec_cols, rec_vals).1[k] == rec_vals[ix]),
    decreases cols.len(),
{
    reveal_with_fuel(Seq::filter, 1);
    let pred = |c: Seq<char>| lookup_index(rec_cols, rec_vals.len(), c) is Some;
    if cols.len() > 0 {
        law_reorder(cols.drop_last(), rec_cols, rec_vals);
        let (cs, vs) = reorder(cols.drop_last(), rec_cols, rec_vals);
        let (cs2, vs2) = reorder(cols, rec_cols, rec_vals);
        assert(cols.filter(pred) == {
            let sub = cols.drop_last().filter(pred);
            if pred(cols.last()) {
                sub.push(cols.last())
            } else {
                sub
            }
        });
        assert forall|k: int| 0 <= k < vs2.len() implies (lookup_index(rec_cols, rec_vals.len(), #[trigger] cs2[k]) matches Some(
            ix,
        ) && vs2[k] == rec_vals[ix]) by {
            if k < vs.len() {
                assert(cs2[k] == cs[k]);
                assert(vs2[k] == vs[k]);
            }
        }
    } else {
        assert(cols.filter(pred) =~= Seq::<Seq<char>>::empty());
    }
}

/// The first of the first `n` columns that the row lacks.
pub open spec fn first_missing(cols: Seq<Seq<char>>, rec_cols: Seq<Seq<char>>, n: int) -> Option<int>
    decreases n,
{
    if n <= 0 {
        None
    } else {
        match first_missing(cols, rec_cols, n - 1) {
            Some(i) => Some(i),
            None => if first_col_index(rec_cols, cols[n - 1]) is None {
                Some(n - 1)
            } else {
                None
            },
        }
    }
}

impl TableDef {
    pub fn new(name: &str, prefix: u8) -> (t: Self)
        ensures
            t@.name == name@,
            t@.types == Seq::<ValueType>::empty(),
            t@.cols == Seq::<Seq<char>>::empty(),
            t@.pkeys == 0,
            t@.prefix == prefix,
    {
        let t = Self {
            name: String::from_str(name),
            types: Vec::new(),
            cols: Vec::new(),
            pkeys: 0,
            prefix,
        };
        assert(t@.cols =~= Seq::<Seq<char>>::empty());
        t
    }

    /// Add a column to the table definition
    pub fn add_column(self, name: &str, typ: ValueType) -> (t: Self)
        ensures
            t@.name == self@.name,
            t@.types == self@.types.push(typ),
            t@.cols == self@.cols.push(name@),
            t@.pkeys == self@.pkeys,
            t@.prefix == self@.prefix,
    {
        let mut t = self;
        let ghost old_cols = t.cols@;
        t.cols.push(String::from_str(name));
        t.types.push(typ);
        assert(string_views(t.cols@) =~= string_views(old_cols).push(name@));
        t
    }

    /// Set the number of primary key columns
    pub fn with_pkeys(self, pkeys: u8) -> (t: Self)
        ensures
            t@ == (TableDefView { pkeys, ..self@ }),
    {
        let mut t = self;
        t.pkeys = pkeys;
        t
    }

    /// Encode key from values
    pub fn encode_key(&self, vals: &[Value]) -> (r: DbResult<Vec<u8>>)
        ensures
            r matches Ok(b) && b@ == encode_key_spec(self.prefix, value_views(vals@)),
    {
        let mut buffer: Vec<u8> = Vec::new();
        append_u8(&mut buffer, self.prefix);
        append_u8(&mut buffer, (vals.len() % 256) as u8);
        let mut i: usize = 0;
        while i < vals.len()
            invariant
                i <= vals@.len(),
                buffer@ == seq![self.prefix, (vals@.len() % 256) as u8] + encode_values(
                    value_views(vals@.take(i as int)),
                ),
            decreases vals@.len() - i,
        {
            vals[i].write_to(&mut buffer)?;
            proof {
                assert(value_views(vals@.take(i + 1)).drop_last() =~= value_views(
                    vals@.take(i as int),
                ));
            }
            i = i + 1;
        }
        assert(vals@.take(i as int) =~= vals@);
        Ok(buffer)
    }

    /// Decode values from key bytes
    pub fn decode_values(&self, data: &[u8]) -> (r: DbResult<Vec<Value>>)
        ensures
            match decode_key_spec(data@) {
                Ok(vs) => r matches Ok(v) && value_views(v@) == vs,
                Err(e) => r matches Err(x) && x@ == e,
            },
    {
        let mut cursor = Cursor::new(slice_to_vec(data));
        let ghost s = data@;
        // Read prefix (discard)
        let _prefix = cursor.read_u8()?;
        // Read number of values
        let n = match cursor.read_u8() {
            Ok(x) => x,
            Err(e) => {
                return Err(e);
            },
        };
        let ghost s0 = cursor.remaining();
        assert(s0 =~= s.skip(2));
        let mut values: Vec<Value> = Vec::new();
        let ghost mut acc: Seq<ValueView> = Seq::empty();
        let ghost mut used: nat = 0;
        let mut i: u8 = 0;
        assert(s0.skip(0) =~= s0);
        assert(after_prefix(acc, used, decode_values_n(s0, n as nat)) =~= decode_values_n(s0, n as nat)) by {
            match decode_values_n(s0, n as nat) {
                Ok((vs, m)) => {
                    assert(acc + vs =~= vs);
                },
                Err(e) => {},
            }
        }
        while i < n
            invariant
                i <= n,
                s == data@,
                s.len() >= 2,
                n == s[1],
                s0 == s.skip(2),
                value_views(values@) == acc,
                used <= s0.len(),
                cursor.remaining() == s0.skip(used as int),
                decode_values_n(s0, n as nat) == after_prefix(
                    acc,
                    used,
                    decode_values_n(s0.skip(used as int), (n - i) as nat),
                ),
            decreases n - i,
        {
            let ghost cur = cursor.remaining();
            let v = match Value::read_from(&mut cursor) {
                Ok(x) => x,
                Err(e) => {
                    assert(decode_values_n(cur, (n - i) as nat) matches Err(_));
                    return Err(e);
                },
            };
            proof {
                if let Ok((vv, k)) = decode_value(cur) {
                    lemma_decode_values_step(acc, used, cur, (n - i) as nat, vv, k);
                    assert(cur.skip(k as int) =~= s0.skip((used + k) as int));
                    acc = acc.push(vv);
                    used = used + k;
                }
            }
            values.push(v);
            i = i + 1;
            assert(value_views(values@) =~= acc);
        }
        assert(acc + Seq::<ValueView>::empty() =~= acc);
        Ok(values)
    }

    /// Check and reorder record to match table definition
    pub fn check_record(&self, rec: &mut Record) -> (r: DbResult<()>)
        requires
            self.pkeys <= self.cols@.len() || first_missing(
                self@.cols,
                old(rec)@.cols,
                self.cols@.len() as int,
            ) is Some,
        ensures
            r is Ok <==> forall|j: int|
                0 <= j < self.pkeys && j < self@.cols.len() ==> old(rec)@.cols.contains(#[trigger] self@.cols[j]),
            match first_missing(self@.cols, old(rec)@.cols, self.pkeys as int) {
                Some(i) => (r matches Err(x) && x@ == DbErrorView::InvalidRecord(
                    missing_pk_message(self@.cols[i]),
                )) && *final(rec) == *old(rec),
                None => r is Ok && (final(rec)@.cols, final(rec)@.vals) == reorder(
                    self@.cols,
                    old(rec)@.cols,
                    old(rec)@.vals,
                ),
            },
    {
        proof {
            lemma_pk_present(self@.cols, rec@.cols, self.pkeys as int);
        }
        // Verify all primary key columns are present
        let mut i: usize = 0;
        while i < self.pkeys as usize
            invariant
                i <= self.pkeys,
                self.pkeys <= self.cols@.len() || first_missing(
                    self@.cols,
                    rec@.cols,
                    self.cols@.len() as int,
                ) is Some,
                first_missing(self@.cols, rec@.cols, i as int) is None,
                *rec == *old(rec),
            decreases self.pkeys - i,
        {
            proof {
                if i >= self.cols@.len() {
                    lemma_first_missing_mono(self@.cols, rec@.cols, self.cols@.len() as int, i as int);
                }
            }
            let col = &self.cols[i];
            let found = super::record::contains_col(&rec.cols, col.as_str());
            if !found {
                let mut msg = string_of("Missing primary key column: ");
                push_str(&mut msg, col.as_str());
                proof {
                    lemma_first_missing_mono(self@.cols, rec@.cols, (i + 1) as int, self.pkeys as int);
                    lemma_pk_present(self@.cols, rec@.cols, self.pkeys as int);
                }
                return Err(DbError::InvalidRecord(msg));
            }
            i = i + 1;
        }
        // Reorder record to match table definition
        let mut new_cols: Vec<String> = Vec::new();
        let mut new_vals: Vec<Value> = Vec::new();
        let mut j: usize = 0;
        while j < self.cols.len()
            invariant
                j <= self.cols@.len(),
                *rec == *old(rec),
                (string_views(new_cols@), value_views(new_vals@)) == reorder(
                    self@.cols.take(j as int),
                    rec@.cols,
                    rec@.vals,
                ),
            decreases self.cols@.len() - j,
        {
            let col = &self.cols[j];
            let ghost before_cols = new_cols@;
            let ghost before_vals = new_vals@;
            proof {
                assert(self@.cols.take(j + 1).drop_last() =~= self@.cols.take(j as int));
                assert(self@.cols.take(j + 1).last() == col@);
            }
            if let Some(val) = rec.get(col.as_str()) {
                new_cols.push(col.clone());
                new_vals.push(val.copy());
                assert(string_views(new_cols@) =~= string_views(before_cols).push(col@));
                assert(value_views(new_vals@) =~= value_views(before_vals).push(
                    rec@.vals[lookup_index(rec@.cols, rec@.vals.len(), col@).unwrap()],
                ));
            }
            j = j + 1;
        }
        assert(self@.cols.take(j as int) =~= self@.cols);
        rec.cols = new_cols;
        rec.vals = new_vals;
        Ok(())
    }

    /// Serialize table definition
    pub fn serialize(&self) -> (r: DbResult<Vec<u8>>)
        ensures
            r matches Ok(b) && b@ == encode_table(self@),
    {
        let mut buffer: Vec<u8> = Vec::new();
        // Write name
        write_name(&mut buffer, self.name.as_str());
        // Write prefix
        append_u8(&mut buffer, self.prefix);
        // Write pkeys
        append_u8(&mut buffer, self.pkeys);
        // Write number of columns
        append_u8(&mut buffer, (self.cols.len() % 256) as u8);
        let ghost base = buffer@;
        // Write columns and types
        let n = if self.cols.len() <= self.types.len() {
            self.cols.len()
        } else {
            self.types.len()
        };
        let mut i: usize = 0;
        while i < n
            invariant
                i <= n,
                n <= self.cols@.len(),
                n <= self.types@.len(),
                buffer@ == base + encode_cols(self@.cols, self@.types, i as nat),
            decreases n - i,
        {
            write_name(&mut buffer, self.cols[i].as_str());
            append_u8(&mut buffer, self.types[i].code());
            assert(buffer@ =~= base + encode_cols(self@.cols, self@.types, (i + 1) as nat));
            i = i + 1;
        }
        assert(buffer@ =~= encode_table(self@));
        Ok(buffer)
    }

    /// Deserialize table definition
    pub fn deserialize(data: &[u8]) -> (r: DbResult<Self>)
        ensures
            match decode_table(data@) {
                Ok(t) => r matches Ok(x) && x@ == t,
                Err(e) => r matches Err(x) && x@ == e,
            },
    {
        let ghost s = data@;
        let mut cursor = Cursor::new(slice_to_vec(data));
        // Read name
        let name = read_name(&mut cursor)?;
        let ghost r0 = cursor.remaining();
        // Read prefix
        let prefix = match cursor.read_u8() {
            Ok(x) => x,
            Err(e) => {
                return Err(e);
            },
        };
        // Read pkeys
        let pkeys = match cursor.read_u8() {
            Ok(x) => x,
            Err(e) => {
                return Err(e);
            },
        };
        // Read number of columns
        let n_cols = match cursor.read_u8() {
            Ok(x) => x,
            Err(e) => {
                return Err(e);
            },
        };
        let ghost s0 = cursor.remaining();
        assert(s0 =~= r0.skip(3));
        let mut cols: Vec<String> = Vec::new();
        let mut types: Vec<ValueType> = Vec::new();
        let ghost mut acc: Seq<(Seq<char>, ValueType)> = Seq::empty();
        let ghost mut used: nat = 0;
        assert(s0.skip(0) =~= s0);
        assert(after_prefix(acc, used, decode_cols(s0, n_cols as nat)) =~= decode_cols(s0, n_cols as nat)) by {
            match decode_cols(s0, n_cols as nat) {
                Ok((vs, m)) => {
                    assert(acc + vs =~= vs);
                },
                Err(e) => {},
            }
        }
        let mut i: u8 = 0;
        while i < n_cols
            invariant
                i <= n_cols,
                s == data@,
                decode_name(s) matches Ok((nm, kk)) && nm == name@ && r0 == s.skip(kk as int),
                r0.len() >= 3,
                prefix == r0[0],
                pkeys == r0[1],
                n_cols == r0[2],
                s0 == r0.skip(3),
                string_views(cols@) == acc.map_values(|c: (Seq<char>, ValueType)| c.0),
                types@ == acc.map_values(|c: (Seq<char>, ValueType)| c.1),
                used <= s0.len(),
                cursor.remaining() == s0.skip(used as int),
                decode_cols(s0, n_cols as nat) == after_prefix(
                    acc,
                    used,
                    decode_cols(s0.skip(used as int), (n_cols - i) as nat),
                ),
            decreases n_cols - i,
        {
            let ghost cur = cursor.remaining();
            let col = match read_name(&mut cursor) {
                Ok(c) => c,
                Err(e) => {
                    assert(decode_cols(cur, (n_cols - i) as nat) matches Err(_));
                    return Err(e);
                },
            };
            let code = match cursor.read_u8() {
                Ok(x) => x,
                Err(e) => {
                    assert(decode_cols(cur, (n_cols - i) as nat) matches Err(_));
                    return Err(e);
                },
            };
            let typ = match ValueType::try_from_u8(code) {
                Ok(t) => t,
                Err(e) => {
                    assert(decode_cols(cur, (n_cols - i) as nat) matches Err(_));
                    return Err(e);
                },
            };
            proof {
                if let Ok((vv, kk)) = decode_col(cur) {
                    lemma_decode_cols_step(acc, used, cur, (n_cols - i) as nat, vv, kk);
                    assert(vv.0 == col@);
                    assert(vv.1 == typ);
                    assert(cur.skip(kk as int) =~= s0.skip((used + kk) as int));
                    acc = acc.push(vv);
                    used = used + kk;
                }
            }
            let ghost before_cols = cols@;
            let ghost cv = col@;
            cols.push(col);
            types.push(typ);
            assert(string_views(cols@) =~= string_views(before_cols).push(cv));
            assert(string_views(cols@) =~= acc.map_values(|c: (Seq<char>, ValueType)| c.0));
            assert(types@ =~= acc.map_values(|c: (Seq<char>, ValueType)| c.1));
            i = i + 1;
        }
        assert(acc + Seq::<(Seq<char>, ValueType)>::empty() =~= acc);
        Ok(Self { name, types, cols, pkeys, prefix })
    }
}

/// Appends a string with its UTF-8 length modulo 256 in front.
fn write_name(buffer: &mut Vec<u8>, name: &str)
    ensures
        final(buffer)@ == old(buffer)@ + encode_name(name@),
{
    let bytes = name.as_bytes();
    append_u8(buffer, (bytes.len() % 256) as u8);
    append_bytes(buffer, bytes);
    assert(buffer@ =~= old(buffer)@ + encode_name(name@));
}

/// Reads a string with its length in front.
fn read_name(cursor: &mut Cursor) -> (r: DbResult<String>)
    ensures
        match decode_name(old(cursor).remaining()) {
            Ok((v, k)) => r matches Ok(x) && x@ == v && final(cursor).remaining() == old(
                cursor,
            ).remaining().skip(k as int),
            Err(e) => r matches Err(x) && x@ == e,
        },
{
    let ghost s = cursor.remaining();
    let len = cursor.read_u8()?;
    let bytes = match cursor.read_bytes(len as usize) {
        Ok(b) => b,
        Err(e) => {
            return Err(e);
        },
    };
    assert(s.skip(1).take(len as int) =~= s.subrange(1, 1 + len));
    assert(s.skip(1).skip(len as int) =~= s.skip(1 + len));
    let copy = slice_to_vec(bytes.as_slice());
    match string_from_utf8(bytes) {
        Some(name) => Ok(name),
        None => {
            let mut msg = string_of("Invalid UTF-8: ");
            let text = utf8_error_message(copy.as_slice());
            push_str(&mut msg, text.as_str());
            Err(DbError::InvalidFormat(msg))
        },
    }
}

pub proof fn lemma_decode_values_step(
    acc: Seq<ValueView>,
    c: nat,
    cur: Seq<u8>,
    n: nat,
    v: ValueView,
    k: nat,
)
    requires
        n > 0,
        decode_value(cur) == Ok::<(ValueView, nat), DbErrorView>((v, k)),
    ensures
        after_prefix(acc, c, decode_values_n(cur, n)) == after_prefix(
            acc.push(v),
            c + k,
            decode_values_n(cur.skip(k as int), (n - 1) as nat),
        ),
{
    match decode_values_n(cur.skip(k as int), (n - 1) as nat) {
        Ok((vs, m)) => {
            assert(acc + (seq![v] + vs) =~= acc.push(v) + vs);
        },
        Err(e) => {},
    }
}

pub proof fn lemma_decode_cols_step(
    acc: Seq<(Seq<char>, ValueType)>,
    c: nat,
    cur: Seq<u8>,
    n: nat,
    v: (Seq<char>, ValueType),
    k: nat,
)
    requires
        n > 0,
        decode_col(cur) == Ok::<((Seq<char>, ValueType), nat), DbErrorView>((v, k)),
    ensures
        after_prefix(acc, c, decode_cols(cur, n)) == after_prefix(
            acc.push(v),
            c + k,
            decode_cols(cur.skip(k as int), (n - 1) as nat),
        ),
{
    match decode_cols(cur.skip(k as int), (n - 1) as nat) {
        Ok((vs, m)) => {
            assert(acc + (seq![v] + vs) =~= acc.push(v) + vs);
        },
        Err(e) => {},
    }
}

/// The row lacks one of the first `n` columns exactly when `first_missing` finds
/// one, and the one it finds is the first column, in the table's order, that the
/// row's columns do not contain.
pub proof fn law_first_missing(cols: Seq<Seq<char>>, rec_cols: Seq<Seq<char>>, n: int)
    requires
        0 <= n <= cols.len(),
    ensures
        first_missing(cols, rec_cols, n) is None <==> forall|j: int| 0 <= j < n ==> rec_cols.contains(
            #[trigger] cols[j],
        ),
        first_missing(cols, rec_cols, n) matches Some(i) ==> 0 <= i < n && !rec_cols.contains(cols[i])
            && forall|j: int| 0 <= j < i ==> rec_cols.contains(#[trigger] cols[j]),
    decreases n,
{
    if n > 0 {
        law_first_missing(cols, rec_cols, n - 1);
        lemma_first_col_index(rec_cols, cols[n - 1]);
        match first_col_index(rec_cols, cols[n - 1]) {
            Some(k) => {
                assert(rec_cols[k] == cols[n - 1]);
                assert(rec_cols.contains(cols[n - 1]));
            },
            None => {
                assert(!rec_cols.contains(cols[n - 1]));
            },
        }
    }
}

/// The first `n` columns are all present in the row, those past the table's last
/// column left aside, exactly when `first_missing` finds none, where the row lacks
/// one of the table's columns whenever `n` goes past them.
pub proof fn lemma_pk_present(cols: Seq<Seq<char>>, rec_cols: Seq<Seq<char>>, n: int)
    requires
        0 <= n,
        n <= cols.len() || first_missing(cols, rec_cols, cols.len() as int) is Some,
    ensures
        first_missing(cols, rec_cols, n) is None <==> forall|j: int|
            0 <= j < n && j < cols.len() ==> rec_cols.contains(#[trigger] cols[j]),
{
    if n <= cols.len() {
        law_first_missing(cols, rec_cols, n);
    } else {
        law_first_missing(cols, rec_cols, cols.len() as int);
        lemma_first_missing_mono(cols, rec_cols, cols.len() as int, n);
        let i = first_missing(cols, rec_cols, cols.len() as int)->Some_0;
        assert(!rec_cols.contains(cols[i]));
    }
}

pub proof fn lemma_first_missing_mono(cols: Seq<Seq<char>>, rec_cols: Seq<Seq<char>>, i: int, n: int)
    requires
        i <= n,
        first_missing(cols, rec_cols, i) is Some,
    ensures
        first_missing(cols, rec_cols, n) == first_missing(cols, rec_cols, i),
    decreases n - i,
{
    if n > i {
        lemma_first_missing_mono(cols, rec_cols, i, n - 1);
    }
}

/// Get metadata table definition
pub fn get_meta_tdef() -> (t: TableDef)
    ensures
        t@.name == "@meta"@,
        t@.types == seq![ValueType::Bytes, ValueType::Bytes],
        t@.cols == seq!["key"@, "value"@],
        t@.pkeys == 2,
        t@.prefix == 1,
{
    let t = TableDef::new("@meta", 1).add_column("key", ValueType::Bytes).add_column(
        "value",
        ValueType::Bytes,
    ).with_pkeys(2);
    assert(t@.types =~= seq![ValueType::Bytes, ValueType::Bytes]);
    assert(t@.cols =~= seq!["key"@, "value"@]);
    t
}

/// Get table catalog definition
pub fn get_table_tdef() -> (t: TableDef)
    ensures
        t@.name == "@table"@,
        t@.types == seq![ValueType::Bytes, ValueType::Bytes],
        t@.cols == seq!["name"@, "def"@],
        t@.pkeys == 2,
        t@.prefix == 2,
{
    let t = TableDef::new("@table", 2).add_column("name", ValueType::Bytes).add_column(
        "def",
        ValueType::Bytes,
    ).with_pkeys(2);
    assert(t@.types =~= seq![ValueType::Bytes, ValueType::Bytes]);
    assert(t@.cols =~= seq!["name"@, "def"@]);
    t
}

/// Encoding values one after another: the first value's bytes, then the rest's.
proof fn lemma_encode_values_cons(v: ValueView, vs: Seq<ValueView>)
    ensures
        encode_values(seq![v] + vs) == encode_value(v) + encode_values(vs),
    decreases vs.len(),
{
    let all = seq![v] + vs;
    if vs.len() == 0 {
        assert(all.drop_last() =~= Seq::<ValueView>::empty());
        assert(encode_values(Seq::<ValueView>::empty()) == Seq::<u8>::empty());
        assert(encode_value(v) + encode_values(vs) =~= Seq::<u8>::empty() + encode_value(v));
    } else {
        lemma_encode_values_cons(v, vs.drop_last());
        assert(all.drop_last() =~= seq![v] + vs.drop_last());
        assert(all.last() == vs.last());
        assert(encode_value(v) + encode_values(vs.drop_last()) + encode_value(vs.last()) =~= encode_value(v)
            + encode_values(vs));
    }
}

/// Reading back `n` encoded values that fit gives the same values.
proof fn lemma_values_roundtrip(vs: Seq<ValueView>, rest: Seq<u8>)
    requires
        forall|i: int| 0 <= i < vs.len() ==> value_fits(#[trigger] vs[i]),
    ensures
        decode_values_n(encode_values(vs) + rest, vs.len()) == Ok::<(Seq<ValueView>, nat), DbErrorView>(
            (vs, encode_values(vs).len()),
        ),
    decreases vs.len(),
{
    if vs.len() == 0 {
        assert(encode_values(vs) == Seq::<u8>::empty());
        assert(vs =~= Seq::<ValueView>::empty());
    } else {
        let v = vs[0];
        let t = vs.drop_first();
        assert(vs =~= seq![v] + t);
        lemma_encode_values_cons(v, t);
        let s = encode_values(vs) + rest;
        assert(s =~= encode_value(v) + (encode_values(t) + rest));
        lemma_value_roundtrip(v, encode_values(t) + rest);
        assert(s.skip(encode_value(v).len() as int) =~= encode_values(t) + rest);
        assert forall|i: int| 0 <= i < t.len() implies value_fits(#[trigger] t[i]) by {
            assert(t[i] == vs[i + 1]);
        }
        lemma_values_roundtrip(t, rest);
        let k = encode_value(v).len();
        assert(decode_value(s) == Ok::<(ValueView, nat), DbErrorView>((v, k)));
        assert(encode_values(vs).len() == k + encode_values(t).len());
        assert(seq![v] + t =~= vs);
        assert(decode_values_n(s, vs.len()) == Ok::<(Seq<ValueView>, nat), DbErrorView>(
            (seq![v] + t, k + encode_values(t).len()),
        ));
    }
}

/// Decoding the values of an encoded key gives back the values, when there are
/// fewer than 256 of them and each byte string among them is at most 255 bytes
/// long; the prefix plays no part.
pub proof fn lemma_key_roundtrip(prefix: u8, vals: Seq<ValueView>)
    requires
        vals.len() < 256,
        forall|i: int| 0 <= i < vals.len() ==> value_fits(#[trigger] vals[i]),
    ensures
        decode_key_spec(encode_key_spec(prefix, vals)) == Ok::<Seq<ValueView>, DbErrorView>(vals),
{
    let s = encode_key_spec(prefix, vals);
    assert(s.skip(2) =~= encode_values(vals) + Seq::<u8>::empty());
    lemma_values_roundtrip(vals, Seq::<u8>::empty());
}

/// A table definition that its encoding can hold: a name and column names of at
/// most 255 UTF-8 bytes, fewer than 256 columns, and a type for each column.
pub open spec fn table_fits(t: TableDefView) -> bool {
    &&& encode_utf8(t.name).len() < 256
    &&& t.cols.len() < 256
    &&& t.cols.len() == t.types.len()
    &&& forall|i: int| 0 <= i < t.cols.len() ==> encode_utf8(#[trigger] t.cols[i]).len() < 256
}

/// Reading back an encoded string of at most 255 UTF-8 bytes gives the same string.
proof fn lemma_name_roundtrip(name: Seq<char>, rest: Seq<u8>)
    requires
        encode_utf8(name).len() < 256,
    ensures
        decode_name(encode_name(name) + rest) == Ok::<(Seq<char>, nat), DbErrorView>(
            (name, encode_name(name).len()),
        ),
{
    let b = encode_utf8(name);
    let s = encode_name(name) + rest;
    assert(s[0] == b.len());
    assert(s.subrange(1, 1 + b.len() as int) =~= b);
    encode_utf8_valid_utf8(name);
    encode_utf8_decode_utf8(name);
}

/// The columns with their types, in order, as many as there are of both.
pub open spec fn col_pairs(cols: Seq<Seq<char>>, types: Seq<ValueType>, n: nat) -> Seq<(Seq<char>, ValueType)> {
    Seq::new(n, |i: int| (cols[i], types[i]))
}

/// The bytes of columns with their types, first to last.
spec fn encode_pairs(ps: Seq<(Seq<char>, ValueType)>) -> Seq<u8>
    decreases ps.len(),
{
    if ps.len() == 0 {
        Seq::empty()
    } else {
        encode_name(ps[0].0) + seq![ps[0].1.spec_code()] + encode_pairs(ps.drop_first())
    }
}

proof fn lemma_encode_pairs_push(ps: Seq<(Seq<char>, ValueType)>, p: (Seq<char>, ValueType))
    ensures
        encode_pairs(ps.push(p)) == encode_pairs(ps) + encode_name(p.0) + seq![p.1.spec_code()],
    decreases ps.len(),
{
    if ps.len() == 0 {
        assert(ps.push(p).drop_first() =~= Seq::<(Seq<char>, ValueType)>::empty());
        assert(encode_pairs(Seq::<(Seq<char>, ValueType)>::empty()) == Seq::<u8>::empty());
        assert(encode_pairs(ps.push(p)) =~= encode_pairs(ps) + encode_name(p.0) + seq![p.1.spec_code()]);
    } else {
        lemma_encode_pairs_push(ps.drop_first(), p);
        assert(ps.push(p).drop_first() =~= ps.drop_first().push(p));
        assert(encode_pairs(ps.push(p)) =~= encode_pairs(ps) + encode_name(p.0) + seq![p.1.spec_code()]);
    }
}

proof fn lemma_encode_cols_pairs(cols: Seq<Seq<char>>, types: Seq<ValueType>, n: nat)
    ensures
        encode_cols(cols, types, n) == encode_pairs(col_pairs(cols, types, n)),
    decreases n,
{
    if n == 0 {
        assert(col_pairs(cols, types, 0) =~= Seq::<(Seq<char>, ValueType)>::empty());
    } else {
        lemma_encode_cols_pairs(cols, types, (n - 1) as nat);
        assert(col_pairs(cols, types, n) =~= col_pairs(cols, types, (n - 1) as nat).push(
            (cols[n - 1], types[n - 1]),
        ));
        lemma_encode_pairs_push(col_pairs(cols, types, (n - 1) as nat), (cols[n - 1], types[n - 1]));
    }
}

proof fn lemma_pairs_roundtrip(ps: Seq<(Seq<char>, ValueType)>, rest: Seq<u8>)
    requires
        forall|i: int| 0 <= i < ps.len() ==> encode_utf8(#[trigger] ps[i].0).len() < 256,
    ensures
        decode_cols(encode_pairs(ps) + rest, ps.len()) == Ok::<(Seq<(Seq<char>, ValueType)>, nat), DbErrorView>(
            (ps, encode_pairs(ps).len()),
        ),
    decreases ps.len(),
{
    if ps.len() > 0 {
        let p = ps[0];
        let t = ps.drop_first();
        let head = encode_name(p.0) + seq![p.1.spec_code()];
        let s = encode_pairs(ps) + rest;
        assert(s =~= encode_name(p.0) + (seq![p.1.spec_code()] + encode_pairs(t) + rest));
        lemma_name_roundtrip(p.0, seq![p.1.spec_code()] + encode_pairs(t) + rest);
        assert(s[encode_name(p.0).len() as int] == p.1.spec_code());
        assert(ValueType::spec_from_code(p.1.spec_code()) == Ok::<ValueType, DbErrorView>(p.1));
        assert(decode_col(s) == Ok::<((Seq<char>, ValueType), nat), DbErrorView>((p, head.len())));
        assert(s.skip(head.len() as int) =~= encode_pairs(t) + rest);
        assert forall|i: int| 0 <= i < t.len() implies encode_utf8(#[trigger] t[i].0).len() < 256 by {
            assert(t[i] == ps[i + 1]);
        }
        lemma_pairs_roundtrip(t, rest);
        assert(encode_pairs(ps).len() == head.len() + encode_pairs(t).len());
        assert(seq![p] + t =~= ps);
        assert(decode_cols(s, ps.len()) == Ok::<(Seq<(Seq<char>, ValueType)>, nat), DbErrorView>(
            (seq![p] + t, head.len() + encode_pairs(t).len()),
        ));
    } else {
        assert(ps =~= Seq::<(Seq<char>, ValueType)>::empty());
    }
}

/// Reading back a serialized table definition gives the same definition, when its
/// names fit in 255 UTF-8 bytes, it has fewer than 256 columns, and each column has
/// a type.
#[verifier::spinoff_prover]
pub proof fn lemma_table_roundtrip(t: TableDefView)
    requires
        table_fits(t),
    ensures
        decode_table(encode_table(t)) == Ok::<TableDefView, DbErrorView>(t),
{
    let n = t.cols.len();
    let ps = col_pairs(t.cols, t.types, n);
    let s = encode_table(t);
    let body = seq![t.prefix, t.pkeys, (n % 256) as u8] + encode_cols(t.cols, t.types, n);
    assert(s =~= encode_name(t.name) + body);
    lemma_name_roundtrip(t.name, body);
    assert(s.skip(encode_name(t.name).len() as int) =~= body);
    lemma_encode_cols_pairs(t.cols, t.types, n);
    assert(body.skip(3) =~= encode_pairs(ps) + Seq::<u8>::empty());
    assert forall|i: int| 0 <= i < ps.len() implies encode_utf8(#[trigger] ps[i].0).len() < 256 by {
        assert(ps[i].0 == t.cols[i]);
    }
    lemma_pairs_roundtrip(ps, Seq::<u8>::empty());
    assert(ps.map_values(|c: (Seq<char>, ValueType)| c.1) =~= t.types);
    assert(ps.map_values(|c: (Seq<char>, ValueType)| c.0) =~= t.cols);
}

} // verus!
