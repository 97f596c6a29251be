use vstd::prelude::*;
use vstd::slice::slice_subrange;
use core::cmp::Ordering;
use crate::codec::{append_bytes, append_i64, append_u16, be_bytes, be_value, i64_bits,
    lemma_be_bytes_len, lemma_be_value_bound, lemma_be_value_of_bytes, lemma_pow256_values,
    Cursor};
use crate::error::{after_prefix, eof, DbError, DbErrorView, DbResult, Decoded};
use crate::text::{decimal, push_decimal, push_str, string_of};
use super::order::{compare_keys, lex_le, lex_lt, lemma_lex_lt_transitive, lemma_lex_trichotomy};
use super::header::{PageHeader, PageType, lemma_header_roundtrip};

verus! {

pub const MAX_KEY_SIZE: usize = 12;

pub const MAX_VAL_SIZE: usize = 12;

pub const LEAF_MAX_KV: usize = 32;

/// `s` right-aligned in twelve bytes, with zeros in front.
pub open spec fn pad12(s: Seq<u8>) -> Seq<u8> {
    Seq::new((12 - s.len()) as nat, |i: int| 0u8) + s
}

/// The bytes of a (key, value) pair on disk: both lengths, then both parts.
pub open spec fn encode_kv_view(kv: (Seq<u8>, Seq<u8>)) -> Seq<u8> {
    be_bytes(kv.0.len(), 2) + be_bytes(kv.1.len(), 2) + kv.0 + kv.1
}

/// Both parts of every pair fit in an entry.
pub open spec fn valid_kv_views(s: Seq<(Seq<u8>, Seq<u8>)>) -> bool {
    forall|i: int| 0 <= i < s.len() ==> (#[trigger] s[i]).0.len() <= 12 && s[i].1.len() <= 12
}

/// The message of the error for a stored key length over the maximum.
pub open spec fn key_len_message(len: nat) -> Seq<char> {
    "Key length "@ + decimal(len) + " exceeds maximum "@ + decimal(12)
}

/// The message of the error for a stored value length over the maximum.
pub open spec fn val_len_message(len: nat) -> Seq<char> {
    "Value length "@ + decimal(len) + " exceeds maximum "@ + decimal(12)
}

pub fn length_message(is_key: bool, len: u16) -> (r: String)
    ensures
        is_key ==> r@ == key_len_message(len as nat),
        !is_key ==> r@ == val_len_message(len as nat),
{
    let mut s = if is_key {
        string_of("Key length ")
    } else {
        string_of("Value length ")
    };
    push_decimal(&mut s, len as u64);
    push_str(&mut s, " exceeds maximum ");
    push_decimal(&mut s, 12);
    s
}

/// Copies `src` into the tail of a zeroed twelve-byte array.
fn padded_array(src: &[u8]) -> (r: [u8; 12])
    requires
        src@.len() <= 12,
    ensures
        r@ == pad12(src@),
{
    let mut data = [0u8; 12];
    let start = 12 - src.len();
    let mut i: usize = 0;
    while i < src.len()
        invariant
            start == 12 - src@.len(),
            i <= src@.len(),
            data@.len() == 12,
            forall|j: int| 0 <= j < start ==> data@[j] == 0u8,
            forall|j: int| 0 <= j < i ==> data@[start + j] == src@[j],
        decreases src@.len() - i,
    {
        data[start + i] = src[i];
        i = i + 1;
    }
    assert(data@ =~= pad12(src@));
    data
}

/// One key-value entry of a leaf page. Both parts are stored right-aligned in
/// fixed arrays, with their lengths beside them.
#[derive(Debug, Clone, Copy)]
pub struct KeyVal {
    pub keylen: u16,
    pub vallen: u16,
    pub key: [u8; MAX_KEY_SIZE],
    pub val: [u8; MAX_VAL_SIZE],
}

impl View for KeyVal {
    type V = (Seq<u8>, Seq<u8>);

    /// The key bytes and the value bytes.
    open spec fn view(&self) -> (Seq<u8>, Seq<u8>) {
        (self.spec_key(), self.spec_val())
    }
}

impl KeyVal {
    pub open spec fn spec_key(self) -> Seq<u8> {
        self.key@.subrange(12 - self.keylen, 12)
    }

    pub open spec fn spec_val(self) -> Seq<u8> {
        self.val@.subrange(12 - self.vallen, 12)
    }

    /// The entry holds exactly `key` and `val`.
    pub open spec fn holds(self, key: Seq<u8>, val: Seq<u8>) -> bool {
        &&& key.len() <= 12
        &&& val.len() <= 12
        &&& self.keylen == key.len()
        &&& self.vallen == val.len()
        &&& self.key@ == pad12(key)
        &&& self.val@ == pad12(val)
    }

    /// Lengths in range and zeros in front of both parts.
    pub open spec fn wf(self) -> bool {
        self.holds(self.spec_key(), self.spec_val())
    }

    /// The bytes of the entry on disk.
    pub open spec fn spec_encode(self) -> Seq<u8> {
        encode_kv_view(self@)
    }

    /// The key and value at the front of `s` and the number of bytes they take, or
    /// the error that reading them meets.
    pub open spec fn spec_decode(s: Seq<u8>) -> Decoded<(Seq<u8>, Seq<u8>)> {
        if s.len() < 4 {
            Err(eof()@)
        } else {
            let k = be_value(s.subrange(0, 2)) as int;
            let v = be_value(s.subrange(2, 4)) as int;
            if k > 12 {
                Err(DbErrorView::InvalidFormat(key_len_message(k as nat)))
            } else if v > 12 {
                Err(DbErrorView::InvalidFormat(val_len_message(v as nat)))
            } else if s.len() < 4 + k + v {
                Err(eof()@)
            } else {
                Ok(((s.subrange(4, 4 + k), s.subrange(4 + k, 4 + k + v)), (4 + k + v) as nat))
            }
        }
    }

    pub fn new(key: &[u8], val: &[u8]) -> (r: DbResult<Self>)
        ensures
            key@.len() > 12 ==> r == Err::<KeyVal, DbError>(
                DbError::KeySizeExceeded(key@.len() as usize, 12),
            ),
            key@.len() <= 12 && val@.len() > 12 ==> r == Err::<KeyVal, DbError>(
                DbError::ValueSizeExceed(val@.len() as usize, 12),
            ),
            key@.len() <= 12 && val@.len() <= 12 ==> (r matches Ok(kv) && kv.holds(key@, val@)),
    {
        if key.len() > MAX_KEY_SIZE {
            return Err(DbError::KeySizeExceeded(key.len(), MAX_KEY_SIZE));
        }
        if val.len() > MAX_VAL_SIZE {
            return Err(DbError::ValueSizeExceed(val.len(), MAX_VAL_SIZE));
        }
        let key_data = padded_array(key);
        let val_data = padded_array(val);
        Ok(Self { keylen: key.len() as u16, vallen: val.len() as u16, key: key_data, val: val_data })
    }

    pub fn from_i64(key: i64, val: i64) -> (r: Self)
        ensures
            r.holds(be_bytes(i64_bits(key), 8), be_bytes(i64_bits(val), 8)),
    {
        let mut key_bytes: Vec<u8> = Vec::new();
        append_i64(&mut key_bytes, key);
        let mut val_bytes: Vec<u8> = Vec::new();
        append_i64(&mut val_bytes, val);
        proof {
            lemma_be_bytes_len(i64_bits(key), 8);
            lemma_be_bytes_len(i64_bits(val), 8);
            assert(key_bytes@ =~= be_bytes(i64_bits(key), 8));
            assert(val_bytes@ =~= be_bytes(i64_bits(val), 8));
        }
        match Self::new(key_bytes.as_slice(), val_bytes.as_slice()) {
            Ok(kv) => kv,
            Err(_) => {
                assert(false);
                Self { keylen: 0, vallen: 0, key: [0u8; 12], val: [0u8; 12] }
            },
        }
    }

    pub fn key_bytes(&self) -> (r: &[u8])
        requires
            self.keylen <= 12,
        ensures
            r@ == self.spec_key(),
    {
        let start = MAX_KEY_SIZE - self.keylen as usize;
        slice_subrange(self.key.as_slice(), start, MAX_KEY_SIZE)
    }

    pub fn val_bytes(&self) -> (r: &[u8])
        requires
            self.vallen <= 12,
        ensures
            r@ == self.spec_val(),
    {
        let start = MAX_VAL_SIZE - self.vallen as usize;
        slice_subrange(self.val.as_slice(), start, MAX_VAL_SIZE)
    }

    pub fn write_to(&self, writer: &mut Vec<u8>) -> (r: DbResult<()>)
        requires
            self.keylen <= 12,
            self.vallen <= 12,
        ensures
            r is Ok,
            final(writer)@ == old(writer)@ + self.spec_encode(),
    {
        append_u16(writer, self.keylen);
        append_u16(writer, self.vallen);
        append_bytes(writer, self.key_bytes());
        append_bytes(writer, self.val_bytes());
        assert(writer@ =~= old(writer)@ + self.spec_encode());
        Ok(())
    }

    pub fn read_from(reader: &mut Cursor) -> (r: DbResult<Self>)
        ensures
            match KeyVal::spec_decode(old(reader).remaining()) {
                Ok((v, n)) => r matches Ok(kv) && kv.holds(v.0, v.1) && final(reader).remaining()
                    == old(reader).remaining().skip(n as int),
                Err(e) => r matches Err(x) && x@ == e,
            },
    {
        let ghost s = reader.remaining();
        let keylen = match reader.read_u16_be() {
            Ok(x) => x,
            Err(e) => {
                return Err(e);
            },
        };
        let vallen = match reader.read_u16_be() {
            Ok(x) => x,
            Err(e) => {
                assert(s.len() < 4);
                return Err(e);
            },
        };
        assert(s.skip(2).take(2) =~= s.subrange(2, 4));
        assert(s.take(2) =~= s.subrange(0, 2));
        if keylen as usize > MAX_KEY_SIZE {
            return Err(DbError::InvalidFormat(length_message(true, keylen)));
        }
        if vallen as usize > MAX_VAL_SIZE {
            return Err(DbError::InvalidFormat(length_message(false, vallen)));
        }
        let kb = reader.read_bytes(keylen as usize)?;
        let vb = match reader.read_bytes(vallen as usize) {
            Ok(x) => x,
            Err(e) => {
                return Err(e);
            },
        };
        let ghost k = keylen as int;
        let ghost v = vallen as int;
        assert(s.skip(2).skip(2) =~= s.skip(4));
        assert(s.skip(4).take(k) =~= s.subrange(4, 4 + k));
        assert(s.skip(4).skip(k) =~= s.skip(4 + k));
        assert(s.skip(4 + k).take(v) =~= s.subrange(4 + k, 4 + k + v));
        assert(s.skip(4 + k).skip(v) =~= s.skip(4 + k + v));
        let key = padded_array(kb.as_slice());
        let val = padded_array(vb.as_slice());
        Ok(Self { keylen, vallen, key, val })
    }

    /// Whether this entry's key array sorts at or before `other`'s.
    pub fn key_le(&self, other: &KeyVal) -> (r: bool)
        ensures
            r == lex_le(self.key@, other.key@),
    {
        compare_keys(&self.key, &other.key) <= 0
    }
}

/// Two entries with the same lengths and arrays are the same entry.
pub proof fn lemma_keyval_ext(a: KeyVal, b: KeyVal)
    requires
        a.keylen == b.keylen,
        a.vallen == b.vallen,
        a.key@ == b.key@,
        a.val@ == b.val@,
    ensures
        a == b,
{
    assert(a.key =~= b.key);
    assert(a.val =~= b.val);
}

/// An entry is determined by what it holds.
pub proof fn lemma_holds_unique(a: KeyVal, b: KeyVal, key: Seq<u8>, val: Seq<u8>)
    requires
        a.holds(key, val),
        b.holds(key, val),
    ensures
        a == b,
{
    lemma_keyval_ext(a, b);
}

/// An entry that holds `key` and `val` is well formed and shows them.
pub proof fn lemma_holds_view(a: KeyVal, key: Seq<u8>, val: Seq<u8>)
    requires
        a.holds(key, val),
    ensures
        a.wf(),
        a@ == (key, val),
{
    assert(a.spec_key() =~= key);
    assert(a.spec_val() =~= val);
}

pub proof fn lemma_keyval_decode_len(s: Seq<u8>)
    ensures
        KeyVal::spec_decode(s) matches Ok((v, k)) ==> k <= s.len(),
{
}

/// Reading back the bytes of a pair gives the same pair, whatever follows them.
pub proof fn lemma_kv_view_roundtrip(kv: (Seq<u8>, Seq<u8>), rest: Seq<u8>)
    requires
        kv.0.len() <= 12,
        kv.1.len() <= 12,
    ensures
        KeyVal::spec_decode(encode_kv_view(kv) + rest) == Ok::<((Seq<u8>, Seq<u8>), nat), DbErrorView>(
            (kv, encode_kv_view(kv).len()),
        ),
{
    let s = encode_kv_view(kv) + rest;
    lemma_pow256_values();
    lemma_be_bytes_len(kv.0.len(), 2);
    lemma_be_bytes_len(kv.1.len(), 2);
    lemma_be_value_of_bytes(kv.0.len(), 2);
    lemma_be_value_of_bytes(kv.1.len(), 2);
    assert(s.subrange(0, 2) =~= be_bytes(kv.0.len(), 2));
    assert(s.subrange(2, 4) =~= be_bytes(kv.1.len(), 2));
    let k = kv.0.len() as int;
    let v = kv.1.len() as int;
    assert(s.subrange(4, 4 + k) =~= kv.0);
    assert(s.subrange(4 + k, 4 + k + v) =~= kv.1);
}

impl PartialEq for KeyVal {
    fn eq(&self, other: &Self) -> (r: bool) {
        let same = self.keylen == other.keylen && self.vallen == other.vallen && compare_keys(
            &self.key,
            &other.key,
        ) == 0 && compare_keys(&self.val, &other.val) == 0;
        proof {
            if self.keylen == other.keylen && self.vallen == other.vallen && self.key@ == other.key@
                && self.val@ == other.val@ {
                lemma_keyval_ext(*self, *other);
            }
        }
        same
    }
}

impl vstd::std_specs::cmp::PartialEqSpecImpl for KeyVal {
    open spec fn obeys_eq_spec() -> bool {
        true
    }

    open spec fn eq_spec(&self, other: &KeyVal) -> bool {
        *self == *other
    }
}

impl Eq for KeyVal {

}

/// The order of two key arrays.
pub open spec fn key_order(a: Seq<u8>, b: Seq<u8>) -> Ordering {
    if lex_lt(a, b) {
        Ordering::Less
    } else if a == b {
        Ordering::Equal
    } else {
        Ordering::Greater
    }
}

pub fn order_of_keys(a: &[u8; 12], b: &[u8; 12]) -> (r: Ordering)
    ensures
        r == key_order(a@, b@),
{
    let c = compare_keys(a, b);
    if c < 0 {
        Ordering::Less
    } else if c == 0 {
        Ordering::Equal
    } else {
        Ordering::Greater
    }
}

impl PartialOrd for KeyVal {
    fn partial_cmp(&self, other: &Self) -> (r: Option<Ordering>) {
        Some(order_of_keys(&self.key, &other.key))
    }
}

impl vstd::std_specs::cmp::PartialOrdSpecImpl for KeyVal {
    open spec fn obeys_partial_cmp_spec() -> bool {
        true
    }

    /// Entries are ordered by their key arrays alone.
    open spec fn partial_cmp_spec(&self, other: &KeyVal) -> Option<Ordering> {
        Some(key_order(self.key@, other.key@))
    }
}

/// One past the last entry of `s` whose key array sorts at or before `x`'s:
/// where `x` goes when it is inserted after its equals.
pub open spec fn upper_pos(s: Seq<KeyVal>, x: KeyVal) -> int
    decreases s.len(),
{
    if s.len() == 0 {
        0
    } else if lex_le(s.last().key@, x.key@) {
        s.len() as int
    } else {
        upper_pos(s.drop_last(), x)
    }
}

/// The entries are in ascending order of their key arrays.
pub open spec fn sorted_kvs(s: Seq<KeyVal>) -> bool {
    forall|i: int, j: int| 0 <= i < j < s.len() ==> lex_le(#[trigger] s[i].key@, #[trigger] s[j].key@)
}

/// The bytes of a run of (key, value) pairs on disk.
pub open spec fn encode_kv_views(s: Seq<(Seq<u8>, Seq<u8>)>) -> Seq<u8>
    decreases s.len(),
{
    if s.len() == 0 {
        Seq::empty()
    } else {
        encode_kv_view(s[0]) + encode_kv_views(s.drop_first())
    }
}

/// The first `n` entries at the front of `s`, as (key, value) pairs, and the bytes
/// they take; or the first error that reading them meets.
pub open spec fn decode_kvs(s: Seq<u8>, n: nat) -> Decoded<Seq<(Seq<u8>, Seq<u8>)>>
    decreases n,
{
    if n == 0 {
        Ok((Seq::empty(), 0))
    } else {
        match KeyVal::spec_decode(s) {
            Err(e) => Err(e),
            Ok((v, k)) => match decode_kvs(s.skip(k as int), (n - 1) as nat) {
                Err(e) => Err(e),
                Ok((vs, m)) => Ok((seq![v] + vs, k + m)),
            },
        }
    }
}

/// The (key, value) pairs that a run of entries holds.
pub open spec fn kv_views(s: Seq<KeyVal>) -> Seq<(Seq<u8>, Seq<u8>)> {
    s.map_values(|kv: KeyVal| kv@)
}

pub proof fn lemma_upper_pos(s: Seq<KeyVal>, x: KeyVal)
    ensures
        0 <= upper_pos(s, x) <= s.len(),
        upper_pos(s, x) > 0 ==> lex_le(s[upper_pos(s, x) - 1].key@, x.key@),
        forall|j: int| upper_pos(s, x) <= j < s.len() ==> !lex_le(#[trigger] s[j].key@, x.key@),
    decreases s.len(),
{
    if s.len() > 0 && !lex_le(s.last().key@, x.key@) {
        let t = s.drop_last();
        lemma_upper_pos(t, x);
        assert forall|j: int| upper_pos(s, x) <= j < s.len() implies !lex_le(
            #[trigger] s[j].key@,
            x.key@,
        ) by {
            if j < t.len() {
                assert(s[j] == t[j]);
            }
        }
    }
}

/// Inserting where `upper_pos` points keeps a sorted run sorted.
pub proof fn lemma_insert_keeps_sorted(s: Seq<KeyVal>, x: KeyVal)
    requires
        sorted_kvs(s),
    ensures
        sorted_kvs(s.insert(upper_pos(s, x), x)),
{
    let p = upper_pos(s, x);
    lemma_upper_pos(s, x);
    let t = s.insert(p, x);
    assert forall|i: int, j: int| 0 <= i < j < t.len() implies lex_le(
        #[trigger] t[i].key@,
        #[trigger] t[j].key@,
    ) by {
        if i < p && j == p {
            // t[i] = s[i] <= s[p - 1] <= x
            if i < p - 1 {
                assert(lex_le(s[i].key@, s[p - 1].key@));
                if lex_lt(s[i].key@, s[p - 1].key@) && lex_lt(s[p - 1].key@, x.key@) {
                    lemma_lex_lt_transitive(s[i].key@, s[p - 1].key@, x.key@);
                }
            }
        } else if i == p && j > p {
            // x < s[j - 1]
            lemma_lex_trichotomy(s[j - 1].key@, x.key@);
        }
    }
}

pub proof fn lemma_encode_kv_views_push(s: Seq<(Seq<u8>, Seq<u8>)>, x: (Seq<u8>, Seq<u8>))
    ensures
        encode_kv_views(s.push(x)) == encode_kv_views(s) + encode_kv_view(x),
    decreases s.len(),
{
    if s.len() == 0 {
        assert(s.push(x).drop_first() =~= Seq::<(Seq<u8>, Seq<u8>)>::empty());
        assert(encode_kv_views(Seq::<(Seq<u8>, Seq<u8>)>::empty()) == Seq::<u8>::empty());
        assert(encode_kv_views(s.push(x)) =~= encode_kv_view(x));
    } else {
        assert(s.push(x).drop_first() =~= s.drop_first().push(x));
        lemma_encode_kv_views_push(s.drop_first(), x);
        assert(encode_kv_views(s.push(x)) =~= encode_kv_views(s) + encode_kv_view(x));
    }
}

pub proof fn lemma_decode_kvs_step(
    acc: Seq<(Seq<u8>, Seq<u8>)>,
    c: nat,
    cur: Seq<u8>,
    n: nat,
    v: (Seq<u8>, Seq<u8>),
    k: nat,
)
    requires
        n > 0,
        KeyVal::spec_decode(cur) == Ok::<((Seq<u8>, Seq<u8>), nat), DbErrorView>((v, k)),
    ensures
        after_prefix(acc, c, decode_kvs(cur, n)) == after_prefix(
            acc.push(v),
            c + k,
            decode_kvs(cur.skip(k as int), (n - 1) as nat),
        ),
{
    match decode_kvs(cur.skip(k as int), (n - 1) as nat) {
        Ok((vs, m)) => {
            assert(acc + (seq![v] + vs) =~= acc.push(v) + vs);
        },
        Err(e) => {},
    }
}

/// Reading back a written run of pairs gives the same pairs.
pub proof fn lemma_kvs_roundtrip(s: Seq<(Seq<u8>, Seq<u8>)>, rest: Seq<u8>)
    requires
        valid_kv_views(s),
    ensures
        decode_kvs(encode_kv_views(s) + rest, s.len()) == Ok::<(Seq<(Seq<u8>, Seq<u8>)>, nat), DbErrorView>(
            (s, encode_kv_views(s).len()),
        ),
    decreases s.len(),
{
    if s.len() > 0 {
        let t = s.drop_first();
        assert(forall|i: int| 0 <= i < t.len() ==> t[i] == s[i + 1]);
        lemma_kvs_roundtrip(t, rest);
        let whole = encode_kv_views(s) + rest;
        assert(whole =~= encode_kv_view(s[0]) + (encode_kv_views(t) + rest));
        lemma_kv_view_roundtrip(s[0], encode_kv_views(t) + rest);
        let k = encode_kv_view(s[0]).len();
        assert(whole.skip(k as int) =~= encode_kv_views(t) + rest);
        assert(s =~= seq![s[0]] + t);
    } else {
        assert(s =~= Seq::<(Seq<u8>, Seq<u8>)>::empty());
    }
}

/// The pairs of well-formed entries fit in entries.
pub proof fn lemma_kv_views_valid(s: Seq<KeyVal>)
    requires
        forall|i: int| 0 <= i < s.len() ==> (#[trigger] s[i]).wf(),
    ensures
        valid_kv_views(kv_views(s)),
{
}

/// Decoded pairs are as many as asked for, and each part fits in an entry.
pub proof fn lemma_decode_kvs_valid(s: Seq<u8>, n: nat)
    ensures
        decode_kvs(s, n) matches Ok((vs, m)) ==> vs.len() == n && valid_kv_views(vs),
    decreases n,
{
    if n > 0 {
        if let Ok((v, k)) = KeyVal::spec_decode(s) {
            lemma_decode_kvs_valid(s.skip(k as int), (n - 1) as nat);
            if let Ok((vs, m)) = decode_kvs(s.skip(k as int), (n - 1) as nat) {
                let all = seq![v] + vs;
                assert forall|i: int| 0 <= i < all.len() implies (#[trigger] all[i]).0.len() <= 12
                    && all[i].1.len() <= 12 by {
                    if i > 0 {
                        assert(all[i] == vs[i - 1]);
                    }
                }
            }
        }
    }
}

/// Leaf page node for B+ tree
#[derive(Debug, Clone)]
pub struct BTreeLeafPage {
    pub header: PageHeader,
    pub nkv: u16,
    pub kv: Vec<KeyVal>,
}

impl BTreeLeafPage {
    /// The count matches the entries and every entry is well formed.
    pub open spec fn wf(&self) -> bool {
        &&& self.nkv == self.kv@.len()
        &&& forall|i: int| 0 <= i < self.kv@.len() ==> (#[trigger] self.kv@[i]).wf()
    }

    /// The entries that the count covers.
    pub open spec fn entries(&self) -> Seq<KeyVal> {
        self.kv@.take(self.nkv as int)
    }

    /// The bytes of the page on disk: header, count, entries.
    pub open spec fn spec_encode(&self) -> Seq<u8> {
        self.header.spec_encode() + be_bytes(self.nkv as nat, 2) + encode_kv_views(
            kv_views(self.entries()),
        )
    }

    /// What follows the header of a leaf page at the front of `s`: the count and the
    /// (key, value) pairs of the entries, and the bytes they take.
    pub open spec fn spec_decode_body(s: Seq<u8>) -> Decoded<(u16, Seq<(Seq<u8>, Seq<u8>)>)> {
        if s.len() < 2 {
            Err(eof()@)
        } else {
            let n = be_value(s.subrange(0, 2));
            match decode_kvs(s.skip(2), n) {
                Ok((vs, m)) => Ok(((n as u16, vs), 2 + m)),
                Err(e) => Err(e),
            }
        }
    }

    pub fn new() -> (p: Self)
        ensures
            p.header == PageHeader::new(PageType::Leaf),
            p.nkv == 0,
            p.kv@ == Seq::<KeyVal>::empty(),
    {
        Self { header: PageHeader::new(PageType::Leaf), nkv: 0, kv: Vec::with_capacity(LEAF_MAX_KV) }
    }

    pub fn is_full(&self) -> (r: bool)
        ensures
            r == (self.nkv >= LEAF_MAX_KV),
    {
        self.nkv as usize >= LEAF_MAX_KV
    }

    /// Find last position where key <= find_key
    pub fn find_last_le(&self, find_kv: &KeyVal) -> (r: Option<usize>)
        requires
            self.nkv <= self.kv@.len(),
        ensures
            r == (if upper_pos(self.entries(), *find_kv) == 0 {
                None::<usize>
            } else {
                Some((upper_pos(self.entries(), *find_kv) - 1) as usize)
            }),
    {
        let mut i: usize = self.nkv as usize;
        assert(self.entries().take(i as int) =~= self.entries());
        while i > 0
            invariant
                i <= self.nkv <= self.kv@.len(),
                upper_pos(self.entries(), *find_kv) == upper_pos(self.entries().take(i as int), *find_kv),
            decreases i,
        {
            let ghost t = self.entries().take(i as int);
            assert(t.last() == self.kv@[i - 1]);
            assert(t.drop_last() =~= self.entries().take(i - 1));
            if self.kv[i - 1].key_le(find_kv) {
                return Some(i - 1);
            }
            i = i - 1;
        }
        None
    }

    /// Find exact key match
    pub fn find_exact(&self, key: &[u8]) -> (r: Option<usize>)
        requires
            self.nkv <= self.kv@.len(),
            forall|j: int| 0 <= j < self.nkv ==> (#[trigger] self.kv@[j]).keylen <= 12,
        ensures
            match r {
                Some(i) => i < self.nkv && self.kv@[i as int].spec_key() == key@ && forall|j: int|
                    0 <= j < i ==> (#[trigger] self.kv@[j]).spec_key() != key@,
                None => forall|j: int| 0 <= j < self.nkv ==> (#[trigger] self.kv@[j]).spec_key() != key@,
            },
    {
        let mut i: usize = 0;
        while i < self.nkv as usize
            invariant
                i <= self.nkv <= self.kv@.len(),
                forall|j: int| 0 <= j < self.nkv ==> (#[trigger] self.kv@[j]).keylen <= 12,
                forall|j: int| 0 <= j < i ==> (#[trigger] self.kv@[j]).spec_key() != key@,
            decreases self.nkv - i,
        {
            if bytes_equal(self.kv[i].key_bytes(), key) {
                return Some(i);
            }
            i = i + 1;
        }
        None
    }

    /// Insert a key-value pair into the leaf node
    pub fn insert_kv(&mut self, insert_kv: KeyVal) -> (r: DbResult<()>)
        requires
            old(self).nkv <= old(self).kv@.len(),
        ensures
            old(self).nkv >= LEAF_MAX_KV ==> (r matches Err(DbError::NodeFull)) && *final(self)
                == *old(self),
            old(self).nkv < LEAF_MAX_KV ==> r is Ok && final(self).header == old(self).header
                && final(self).nkv == old(self).nkv + 1 && final(self).kv@ == old(self).kv@.insert(
                upper_pos(old(self).entries(), insert_kv),
                insert_kv,
            ),
            old(self).nkv < LEAF_MAX_KV && old(self).wf() && insert_kv.wf() ==> final(self).wf(),
    {
        if self.is_full() {
            return Err(DbError::NodeFull);
        }
        proof {
            lemma_upper_pos(self.entries(), insert_kv);
        }
        let pos = match self.find_last_le(&insert_kv) {
            Some(p) => p + 1,
            None => 0,
        };
        let ghost before = self.kv@;
        self.kv.insert(pos, insert_kv);
        self.nkv = self.nkv + 1;
        proof {
            if old(self).wf() && insert_kv.wf() {
                assert forall|i: int| 0 <= i < self.kv@.len() implies (#[trigger] self.kv@[i]).wf() by {
                    if i < pos {
                        assert(self.kv@[i] == before[i]);
                    } else if i > pos {
                        assert(self.kv@[i] == before[i - 1]);
                    }
                }
            }
        }
        Ok(())
    }

    /// Delete a key-value pair from leaf node
    pub fn del_kv(&mut self, del_kv: &KeyVal) -> (r: bool)
        requires
            old(self).nkv <= old(self).kv@.len(),
        ensures
            ({
                let p = upper_pos(old(self).entries(), *del_kv);
                if p > 0 && old(self).kv@[p - 1] == *del_kv {
                    r && final(self).header == old(self).header && final(self).nkv == old(self).nkv
                        - 1 && final(self).kv@ == old(self).kv@.remove(p - 1)
                } else {
                    !r && *final(self) == *old(self)
                }
            }),
    {
        proof {
            lemma_upper_pos(self.entries(), *del_kv);
        }
        if let Some(pos) = self.find_last_le(del_kv) {
            if self.kv[pos] == *del_kv {
                self.kv.remove(pos);
                self.nkv = self.nkv - 1;
                return true;
            }
        }
        false
    }

    /// Delete the first entry whose key bytes are `key`
    pub fn del_key(&mut self, key: &[u8]) -> (r: bool)
        requires
            old(self).nkv <= old(self).kv@.len(),
            forall|j: int| 0 <= j < old(self).nkv ==> (#[trigger] old(self).kv@[j]).keylen <= 12,
        ensures
            match first_with_key(old(self).entries(), key@) {
                Some(i) => r && final(self).header == old(self).header && final(self).nkv == old(self).nkv - 1 && final(self).kv@ == old(self).kv@.remove(i),
                None => !r && *final(self) == *old(self),
            },
    {
        match self.find_exact(key) {
            Some(pos) => {
                proof {
                    lemma_first_with_key(self.entries(), key@, pos as int);
                }
                self.kv.remove(pos);
                self.nkv = self.nkv - 1;
                true
            },
            None => {
                proof {
                    lemma_first_with_key_none(self.entries(), key@);
                }
                false
            },
        }
    }

    /// Split node into two equal parts
    pub fn split(&mut self) -> (r: Self)
        requires
            old(self).nkv == old(self).kv@.len(),
        ensures
            final(self).header == old(self).header,
            final(self).nkv == old(self).nkv / 2,
            final(self).kv@ == old(self).kv@.take((old(self).nkv / 2) as int),
            r.header == PageHeader::new(PageType::Leaf),
            r.nkv == old(self).nkv - old(self).nkv / 2,
            r.kv@ == old(self).kv@.skip((old(self).nkv / 2) as int),
            final(self).kv@ + r.kv@ == old(self).kv@,
            old(self).wf() ==> final(self).wf() && r.wf(),
    {
        let split_pos = self.nkv as usize / 2;
        let new_kv = self.kv.split_off(split_pos);
        let new_nkv = new_kv.len() as u16;
        self.nkv = split_pos as u16;
        assert(self.kv@ + new_kv@ =~= old(self).kv@);
        proof {
            if old(self).wf() {
                assert forall|i: int| 0 <= i < new_kv@.len() implies (#[trigger] new_kv@[i]).wf() by {
                    assert(new_kv@[i] == old(self).kv@[i + split_pos]);
                }
            }
        }
        Self { header: PageHeader::new(PageType::Leaf), nkv: new_nkv, kv: new_kv }
    }

    pub fn write_to(&self, writer: &mut Vec<u8>) -> (r: DbResult<()>)
        requires
            self.nkv <= self.kv@.len(),
            forall|j: int|
                0 <= j < self.nkv ==> (#[trigger] self.kv@[j]).keylen <= 12 && self.kv@[j].vallen
                    <= 12,
        ensures
            r is Ok,
            final(writer)@ == old(writer)@ + self.spec_encode(),
    {
        self.header.write_to(writer)?;
        append_u16(writer, self.nkv);
        let ghost base = writer@;
        let mut i: usize = 0;
        while i < self.nkv as usize
            invariant
                i <= self.nkv <= self.kv@.len(),
                forall|j: int|
                    0 <= j < self.nkv ==> (#[trigger] self.kv@[j]).keylen <= 12 && self.kv@[j].vallen
                        <= 12,
                writer@ == base + encode_kv_views(kv_views(self.kv@.take(i as int))),
            decreases self.nkv - i,
        {
            proof {
                lemma_encode_kv_views_push(kv_views(self.kv@.take(i as int)), self.kv@[i as int]@);
                assert(kv_views(self.kv@.take(i as int)).push(self.kv@[i as int]@) =~= kv_views(
                    self.kv@.take(i + 1),
                ));
            }
            self.kv[i].write_to(writer)?;
            i = i + 1;
        }
        assert(writer@ =~= old(writer)@ + self.spec_encode());
        Ok(())
    }

    pub fn read_from(reader: &mut Cursor, header: PageHeader) -> (r: DbResult<Self>)
        ensures
            match BTreeLeafPage::spec_decode_body(old(reader).remaining()) {
                Ok(((n, vs), used)) => r matches Ok(p) && p.header == header && p.nkv == n && p.wf()
                    && kv_views(p.kv@) == vs && final(reader).remaining() == old(reader).remaining().skip(used as int),
                Err(e) => r matches Err(x) && x@ == e,
            },
    {
        let ghost s = reader.remaining();
        let nkv = match reader.read_u16_be() {
            Ok(x) => x,
            Err(e) => {
                return Err(e);
            },
        };
        assert(s.take(2) =~= s.subrange(0, 2));
        let ghost s0 = reader.remaining();
        let ghost n = nkv as nat;
        let mut kv: Vec<KeyVal> = Vec::with_capacity(nkv as usize);
        let ghost mut acc: Seq<(Seq<u8>, Seq<u8>)> = Seq::empty();
        let ghost mut used: nat = 0;
        let mut i: u16 = 0;
        assert(s0.skip(0) =~= s0);
        assert(after_prefix(acc, used, decode_kvs(s0, n)) =~= decode_kvs(s0, n)) by {
            match decode_kvs(s0, n) {
                Ok((vs, m)) => {
                    assert(acc + vs =~= vs);
                },
                Err(e) => {},
            }
        }
        while i < nkv
            invariant
                i <= nkv,
                n == nkv,
                kv@.len() == i,
                forall|j: int| 0 <= j < i ==> (#[trigger] kv@[j]).wf(),
                kv_views(kv@) == acc,
                used <= s0.len(),
                s == old(reader).remaining(),
                s.len() >= 2,
                s0 == s.skip(2),
                n == be_value(s.subrange(0, 2)),
                reader.remaining() == s0.skip(used as int),
                decode_kvs(s0, n) == after_prefix(acc, used, decode_kvs(s0.skip(used as int), (n - i) as nat)),
            decreases nkv - i,
        {
            let ghost cur = reader.remaining();
            let item = match KeyVal::read_from(reader) {
                Ok(x) => x,
                Err(e) => {
                    assert(decode_kvs(cur, (n - i) as nat) matches Err(_));
                    return Err(e);
                },
            };
            proof {
                if let Ok((v, k)) = KeyVal::spec_decode(cur) {
                    lemma_keyval_decode_len(cur);
                    lemma_decode_kvs_step(acc, used, cur, (n - i) as nat, v, k);
                    lemma_holds_view(item, v.0, v.1);
                    assert(cur.skip(k as int) =~= s0.skip((used + k) as int));
                    acc = acc.push(v);
                    used = used + k;
                }
            }
            kv.push(item);
            i = i + 1;
            assert(kv_views(kv@) =~= acc);
        }
        proof {
            assert(acc + Seq::<(Seq<u8>, Seq<u8>)>::empty() =~= acc);
            assert(s.skip(2).skip(used as int) =~= s.skip((2 + used) as int));
        }
        Ok(Self { header, nkv, kv })
    }
}

impl Default for BTreeLeafPage {
    fn default() -> (p: Self)
        ensures
            p.header == PageHeader::new(PageType::Leaf),
            p.nkv == 0,
            p.kv@ == Seq::<KeyVal>::empty(),
    {
        Self::new()
    }
}

/// The first position in `s` whose entry's key bytes are `key`.
pub open spec fn first_with_key(s: Seq<KeyVal>, key: Seq<u8>) -> Option<int>
    decreases s.len(),
{
    if s.len() == 0 {
        None
    } else if s[0].spec_key() == key {
        Some(0)
    } else {
        match first_with_key(s.drop_first(), key) {
            Some(i) => Some(i + 1),
            None => None,
        }
    }
}

pub proof fn lemma_first_with_key(s: Seq<KeyVal>, key: Seq<u8>, i: int)
    requires
        0 <= i < s.len(),
        s[i].spec_key() == key,
        forall|j: int| 0 <= j < i ==> (#[trigger] s[j]).spec_key() != key,
    ensures
        first_with_key(s, key) == Some(i),
    decreases s.len(),
{
    if i > 0 {
        let t = s.drop_first();
        assert forall|j: int| 0 <= j < i - 1 implies (#[trigger] t[j]).spec_key() != key by {
            assert(t[j] == s[j + 1]);
        }
        lemma_first_with_key(t, key, i - 1);
    }
}

pub proof fn lemma_first_with_key_none(s: Seq<KeyVal>, key: Seq<u8>)
    requires
        forall|j: int| 0 <= j < s.len() ==> (#[trigger] s[j]).spec_key() != key,
    ensures
        first_with_key(s, key) == None::<int>,
    decreases s.len(),
{
    if s.len() > 0 {
        let t = s.drop_first();
        assert forall|j: int| 0 <= j < t.len() implies (#[trigger] t[j]).spec_key() != key by {
            assert(t[j] == s[j + 1]);
        }
        lemma_first_with_key_none(t, key);
    }
}

/// Whether two byte slices hold the same bytes.
pub fn bytes_equal(a: &[u8], b: &[u8]) -> (r: bool)
    ensures
        r == (a@ == b@),
{
    if a.len() != b.len() {
        return false;
    }
    let mut i: usize = 0;
    while i < a.len()
        invariant
            a@.len() == b@.len(),
            i <= a@.len(),
            forall|j: int| 0 <= j < i ==> a@[j] == b@[j],
        decreases a@.len() - i,
    {
        if a[i] != b[i] {
            return false;
        }
        i = i + 1;
    }
    assert(a@ =~= b@);
    true
}

/// Reading back what `write_to` wrote gives the same page, whatever follows it.
pub proof fn lemma_leaf_roundtrip(p: BTreeLeafPage, rest: Seq<u8>)
    requires
        p.wf(),
    ensures
        PageHeader::spec_decode(p.spec_encode() + rest) == Ok::<(PageHeader, nat), DbError>(
            (p.header, 17),
        ),
        BTreeLeafPage::spec_decode_body((p.spec_encode() + rest).skip(17)) == Ok::<
            ((u16, Seq<(Seq<u8>, Seq<u8>)>), nat),
            DbErrorView,
        >(((p.nkv, kv_views(p.kv@)), (2 + encode_kv_views(kv_views(p.kv@)).len()) as nat)),
{
    let whole = p.spec_encode() + rest;
    let body = be_bytes(p.nkv as nat, 2) + encode_kv_views(kv_views(p.entries())) + rest;
    assert(p.entries() =~= p.kv@);
    assert(whole =~= p.header.spec_encode() + body);
    lemma_header_roundtrip(p.header, body);
    assert(whole.skip(17) =~= body);
    lemma_pow256_values();
    lemma_be_bytes_len(p.nkv as nat, 2);
    lemma_be_value_of_bytes(p.nkv as nat, 2);
    assert(body.subrange(0, 2) =~= be_bytes(p.nkv as nat, 2));
    assert(body.skip(2) =~= encode_kv_views(kv_views(p.kv@)) + rest);
    lemma_kv_views_valid(p.kv@);
    lemma_kvs_roundtrip(kv_views(p.kv@), rest);
}

} // verus!
