use vstd::prelude::*;
use vstd::slice::slice_subrange;
use core::cmp::Ordering;
use crate::codec::{append_bytes, append_i64, append_u16, append_u64, be_bytes, be_value,
    i64_bits, lemma_be_bytes_len, lemma_be_value_of_bytes, lemma_pow256_values, Cursor};
use crate::error::{after_prefix, eof, DbError, DbErrorView, DbResult, Decoded};
use super::order::{compare_keys, lex_le, lex_lt, lemma_lex_lt_transitive, lemma_lex_trichotomy};
use super::header::{PageHeader, PageType, lemma_header_roundtrip};
use super::leaf::{key_len_message, key_order, length_message, order_of_keys, pad12};

verus! {

pub const MAX_KEY_SIZE: usize = 12;

pub const INTERNAL_MAX_KEY: usize = 64;

/// The bytes of a key on disk: its length, then its bytes.
pub open spec fn encode_key_view(k: Seq<u8>) -> Seq<u8> {
    be_bytes(k.len(), 2) + k
}

/// Every key fits in an entry.
pub open spec fn valid_key_views(s: Seq<Seq<u8>>) -> bool {
    forall|i: int| 0 <= i < s.len() ==> (#[trigger] s[i]).len() <= 12
}

fn padded_key(src: &[u8]) -> (r: [u8; 12])
    requires
        src@.len() <= 12,
    ensures
        r@ == pad12(src@),
{
    let mut data = [0u8; 12];
    let start = 12 - src.len();
    let mut i: usize = 0;
    while i < src.len()
        invariant
            start == 12 - src@.len(),
            i <= src@.len(),
            data@.len() == 12,
            forall|j: int| 0 <= j < start ==> data@[j] == 0u8,
            forall|j: int| 0 <= j < i ==> data@[start + j] == src@[j],
        decreases src@.len() - i,
    {
        data[start + i] = src[i];
        i = i + 1;
    }
    assert(data@ =~= pad12(src@));
    data
}

/// A separator key of an internal page, stored right-aligned in a fixed array.
#[derive(Debug, Clone, Copy)]
pub struct KeyEntry {
    len: u16,
    data: [u8; MAX_KEY_SIZE],
}

impl View for KeyEntry {
    type V = Seq<u8>;

    /// The key bytes.
    closed spec fn view(&self) -> Seq<u8> {
        self.data@.subrange(12 - self.len, 12)
    }
}

impl KeyEntry {
    /// The key as a twelve-byte array, zeros in front; entries are ordered by it.
    pub closed spec fn padded(self) -> Seq<u8> {
        self.data@
    }

    /// The stored length.
    pub closed spec fn spec_len(self) -> u16 {
        self.len
    }

    /// The entry holds exactly `key`.
    pub open spec fn holds(self, key: Seq<u8>) -> bool {
        &&& key.len() <= 12
        &&& self.spec_len() == key.len()
        &&& self.padded() == pad12(key)
    }

    /// Length in range and zeros in front.
    pub open spec fn wf(self) -> bool {
        self.holds(self@)
    }

    /// The bytes of the key on disk: its length and its bytes.
    pub open spec fn spec_encode(self) -> Seq<u8> {
        encode_key_view(self@)
    }

    /// The key at the front of `s` and the bytes it takes, or the error that reading
    /// it meets.
    pub open spec fn spec_decode(s: Seq<u8>) -> Decoded<Seq<u8>> {
        if s.len() < 2 {
            Err(eof()@)
        } else {
            let k = be_value(s.subrange(0, 2)) as int;
            if k > 12 {
                Err(DbErrorView::InvalidFormat(key_len_message(k as nat)))
            } else if s.len() < 2 + k {
                Err(eof()@)
            } else {
                Ok((s.subrange(2, 2 + k), (2 + k) as nat))
            }
        }
    }

    pub proof fn lemma_holds(self, key: Seq<u8>)
        requires
            self.holds(key),
        ensures
            self@ == key,
            self.wf(),
    {
        assert(self@ =~= key);
    }

    /// Entries that hold the same key are the same entry.
    pub proof fn lemma_holds_unique(self, other: KeyEntry, key: Seq<u8>)
        requires
            self.holds(key),
            other.holds(key),
        ensures
            self == other,
    {
        assert(self.data =~= other.data);
    }

    pub fn new(input: &[u8]) -> (r: DbResult<Self>)
        ensures
            input@.len() > 12 ==> r == Err::<KeyEntry, DbError>(
                DbError::KeySizeExceeded(input@.len() as usize, 12),
            ),
            input@.len() <= 12 ==> (r matches Ok(k) && k.holds(input@)),
    {
        if input.len() > MAX_KEY_SIZE {
            return Err(DbError::KeySizeExceeded(input.len(), MAX_KEY_SIZE));
        }
        let data = padded_key(input);
        Ok(Self { len: input.len() as u16, data })
    }

    pub fn from_i64(value: i64) -> (r: Self)
        ensures
            r.holds(be_bytes(i64_bits(value), 8)),
    {
        let mut bytes: Vec<u8> = Vec::new();
        append_i64(&mut bytes, value);
        proof {
            lemma_be_bytes_len(i64_bits(value), 8);
            assert(bytes@ =~= be_bytes(i64_bits(value), 8));
        }
        match Self::new(bytes.as_slice()) {
            Ok(k) => k,
            Err(_) => {
                assert(false);
                Self { len: 0, data: [0u8; 12] }
            },
        }
    }

    pub fn as_bytes(&self) -> (r: &[u8])
        requires
            self.spec_len() <= 12,
        ensures
            r@ == self@,
    {
        let start = MAX_KEY_SIZE - self.len as usize;
        slice_subrange(self.data.as_slice(), start, MAX_KEY_SIZE)
    }

    pub fn write_to(&self, writer: &mut Vec<u8>) -> (r: DbResult<()>)
        requires
            self.spec_len() <= 12,
        ensures
            r is Ok,
            final(writer)@ == old(writer)@ + self.spec_encode(),
    {
        assert(self@.len() == self.spec_len());
        append_u16(writer, self.len);
        append_bytes(writer, self.as_bytes());
        assert(writer@ =~= old(writer)@ + self.spec_encode());
        Ok(())
    }

    pub fn read_from(reader: &mut Cursor) -> (r: DbResult<Self>)
        ensures
            match KeyEntry::spec_decode(old(reader).remaining()) {
                Ok((v, n)) => r matches Ok(k) && k.holds(v) && final(reader).remaining() == old(reader).remaining().skip(n as int),
                Err(e) => r matches Err(x) && x@ == e,
            },
    {
        let ghost s = reader.remaining();
        let len = match reader.read_u16_be() {
            Ok(x) => x,
            Err(e) => {
                return Err(e);
            },
        };
        assert(s.take(2) =~= s.subrange(0, 2));
        if len as usize > MAX_KEY_SIZE {
            return Err(DbError::InvalidFormat(length_message(true, len)));
        }
        let bytes = reader.read_bytes(len as usize)?;
        let ghost k = len as int;
        assert(s.skip(2).take(k) =~= s.subrange(2, 2 + k));
        assert(s.skip(2).skip(k) =~= s.skip(2 + k));
        let data = padded_key(bytes.as_slice());
        Ok(Self { len, data })
    }

    /// Whether this key sorts at or before `other`.
    pub fn key_le(&self, other: &KeyEntry) -> (r: bool)
        ensures
            r == lex_le(self.padded(), other.padded()),
    {
        compare_keys(&self.data, &other.data) <= 0
    }
}

pub proof fn lemma_key_entry_decode_len(s: Seq<u8>)
    ensures
        KeyEntry::spec_decode(s) matches Ok((v, k)) ==> k <= s.len(),
{
}

/// Reading back the bytes of a key gives the same key, whatever follows them.
pub proof fn lemma_key_view_roundtrip(k: Seq<u8>, rest: Seq<u8>)
    requires
        k.len() <= 12,
    ensures
        KeyEntry::spec_decode(encode_key_view(k) + rest) == Ok::<(Seq<u8>, nat), DbErrorView>(
            (k, encode_key_view(k).len()),
        ),
{
    let s = encode_key_view(k) + rest;
    lemma_pow256_values();
    lemma_be_bytes_len(k.len(), 2);
    lemma_be_value_of_bytes(k.len(), 2);
    assert(s.subrange(0, 2) =~= be_bytes(k.len(), 2));
    assert(s.subrange(2, 2 + k.len() as int) =~= k);
}

impl PartialEq for KeyEntry {
    fn eq(&self, other: &Self) -> (r: bool) {
        let same = self.len == other.len && compare_keys(&self.data, &other.data) == 0;
        proof {
            if self.len == other.len && self.data@ == other.data@ {
                assert(self.data =~= other.data);
            }
        }
        same
    }
}

impl vstd::std_specs::cmp::PartialEqSpecImpl for KeyEntry {
    open spec fn obeys_eq_spec() -> bool {
        true
    }

    open spec fn eq_spec(&self, other: &KeyEntry) -> bool {
        *self == *other
    }
}

impl Eq for KeyEntry {

}

impl PartialOrd for KeyEntry {
    fn partial_cmp(&self, other: &Self) -> (r: Option<Ordering>) {
        Some(order_of_keys(&self.data, &other.data))
    }
}

impl vstd::std_specs::cmp::PartialOrdSpecImpl for KeyEntry {
    open spec fn obeys_partial_cmp_spec() -> bool {
        true
    }

    /// Keys are ordered by their padded arrays.
    open spec fn partial_cmp_spec(&self, other: &KeyEntry) -> Option<Ordering> {
        Some(key_order(self.padded(), other.padded()))
    }
}

/// One past the last key of `s` that sorts at or before `x`.
pub open spec fn upper_key_pos(s: Seq<KeyEntry>, x: KeyEntry) -> int
    decreases s.len(),
{
    if s.len() == 0 {
        0
    } else if lex_le(s.last().padded(), x.padded()) {
        s.len() as int
    } else {
        upper_key_pos(s.drop_last(), x)
    }
}

/// The keys are in ascending order.
pub open spec fn sorted_keys(s: Seq<KeyEntry>) -> bool {
    forall|i: int, j: int|
        0 <= i < j < s.len() ==> lex_le(#[trigger] s[i].padded(), #[trigger] s[j].padded())
}

pub proof fn lemma_upper_key_pos(s: Seq<KeyEntry>, x: KeyEntry)
    ensures
        0 <= upper_key_pos(s, x) <= s.len(),
        upper_key_pos(s, x) > 0 ==> lex_le(s[upper_key_pos(s, x) - 1].padded(), x.padded()),
        forall|j: int|
            upper_key_pos(s, x) <= j < s.len() ==> !lex_le(#[trigger] s[j].padded(), x.padded()),
    decreases s.len(),
{
    if s.len() > 0 && !lex_le(s.last().padded(), x.padded()) {
        let t = s.drop_last();
        lemma_upper_key_pos(t, x);
        assert forall|j: int| upper_key_pos(s, x) <= j < s.len() implies !lex_le(
            #[trigger] s[j].padded(),
            x.padded(),
        ) by {
            if j < t.len() {
                assert(s[j] == t[j]);
            }
        }
    }
}

/// Inserting where `upper_key_pos` points keeps sorted keys sorted.
pub proof fn lemma_insert_keeps_keys_sorted(s: Seq<KeyEntry>, x: KeyEntry)
    requires
        sorted_keys(s),
    ensures
        sorted_keys(s.insert(upper_key_pos(s, x), x)),
{
    let p = upper_key_pos(s, x);
    lemma_upper_key_pos(s, x);
    let t = s.insert(p, x);
    assert forall|i: int, j: int| 0 <= i < j < t.len() implies lex_le(
        #[trigger] t[i].padded(),
        #[trigger] t[j].padded(),
    ) by {
        if i < p && j == p {
            if i < p - 1 {
                assert(lex_le(s[i].padded(), s[p - 1].padded()));
                if lex_lt(s[i].padded(), s[p - 1].padded()) && lex_lt(
                    s[p - 1].padded(),
                    x.padded(),
                ) {
                    lemma_lex_lt_transitive(s[i].padded(), s[p - 1].padded(), x.padded());
                }
            }
        } else if i == p && j > p {
            lemma_lex_trichotomy(s[j - 1].padded(), x.padded());
        }
    }
}

/// The bytes of a run of keys on disk.
pub open spec fn encode_key_views(s: Seq<Seq<u8>>) -> Seq<u8>
    decreases s.len(),
{
    if s.len() == 0 {
        Seq::empty()
    } else {
        encode_key_view(s[0]) + encode_key_views(s.drop_first())
    }
}

/// The bytes of a run of child pointers on disk.
pub open spec fn encode_ptrs(s: Seq<u64>) -> Seq<u8>
    decreases s.len(),
{
    if s.len() == 0 {
        Seq::empty()
    } else {
        be_bytes(s[0] as nat, 8) + encode_ptrs(s.drop_first())
    }
}

/// `n` keys at the front of `s`, or the first error that reading them meets.
pub open spec fn decode_keys(s: Seq<u8>, n: nat) -> Decoded<Seq<Seq<u8>>>
    decreases n,
{
    if n == 0 {
        Ok((Seq::empty(), 0))
    } else {
        match KeyEntry::spec_decode(s) {
            Err(e) => Err(e),
            Ok((v, k)) => match decode_keys(s.skip(k as int), (n - 1) as nat) {
                Err(e) => Err(e),
                Ok((vs, m)) => Ok((seq![v] + vs, k + m)),
            },
        }
    }
}

/// `n` child pointers at the front of `s`, or the end-of-input error.
pub open spec fn decode_ptrs(s: Seq<u8>, n: nat) -> Decoded<Seq<u64>> {
    if s.len() < 8 * n {
        Err(eof()@)
    } else {
        Ok((Seq::new(n, |i: int| be_value(s.subrange(8 * i, 8 * i + 8)) as u64), 8 * n))
    }
}

/// The key bytes of a run of keys.
pub open spec fn key_views(s: Seq<KeyEntry>) -> Seq<Seq<u8>> {
    s.map_values(|k: KeyEntry| k@)
}

pub proof fn lemma_encode_key_views_push(s: Seq<Seq<u8>>, x: Seq<u8>)
    ensures
        encode_key_views(s.push(x)) == encode_key_views(s) + encode_key_view(x),
    decreases s.len(),
{
    if s.len() == 0 {
        assert(s.push(x).drop_first() =~= Seq::<Seq<u8>>::empty());
        assert(encode_key_views(Seq::<Seq<u8>>::empty()) == Seq::<u8>::empty());
        assert(encode_key_views(s.push(x)) =~= encode_key_view(x));
    } else {
        assert(s.push(x).drop_first() =~= s.drop_first().push(x));
        lemma_encode_key_views_push(s.drop_first(), x);
        assert(encode_key_views(s.push(x)) =~= encode_key_views(s) + encode_key_view(x));
    }
}

pub proof fn lemma_encode_ptrs_push(s: Seq<u64>, x: u64)
    ensures
        encode_ptrs(s.push(x)) == encode_ptrs(s) + be_bytes(x as nat, 8),
    decreases s.len(),
{
    if s.len() == 0 {
        assert(s.push(x).drop_first() =~= Seq::<u64>::empty());
        assert(encode_ptrs(Seq::<u64>::empty()) == Seq::<u8>::empty());
        assert(encode_ptrs(s.push(x)) =~= be_bytes(x as nat, 8));
    } else {
        assert(s.push(x).drop_first() =~= s.drop_first().push(x));
        lemma_encode_ptrs_push(s.drop_first(), x);
        assert(encode_ptrs(s.push(x)) =~= encode_ptrs(s) + be_bytes(x as nat, 8));
    }
}

pub proof fn lemma_encode_ptrs_len(s: Seq<u64>)
    ensures
        encode_ptrs(s).len() == 8 * s.len(),
    decreases s.len(),
{
    if s.len() > 0 {
        lemma_be_bytes_len(s[0] as nat, 8);
        lemma_encode_ptrs_len(s.drop_first());
    }
}

pub proof fn lemma_decode_keys_step(acc: Seq<Seq<u8>>, c: nat, cur: Seq<u8>, n: nat, v: Seq<u8>, k: nat)
    requires
        n > 0,
        KeyEntry::spec_decode(cur) == Ok::<(Seq<u8>, nat), DbErrorView>((v, k)),
    ensures
        after_prefix(acc, c, decode_keys(cur, n)) == after_prefix(
            acc.push(v),
            c + k,
            decode_keys(cur.skip(k as int), (n - 1) as nat),
        ),
{
    match decode_keys(cur.skip(k as int), (n - 1) as nat) {
        Ok((vs, m)) => {
            assert(acc + (seq![v] + vs) =~= acc.push(v) + vs);
        },
        Err(e) => {},
    }
}

/// Reading back a written run of keys gives the same keys.
pub proof fn lemma_keys_roundtrip(s: Seq<Seq<u8>>, rest: Seq<u8>)
    requires
        valid_key_views(s),
    ensures
        decode_keys(encode_key_views(s) + rest, s.len()) == Ok::<(Seq<Seq<u8>>, nat), DbErrorView>(
            (s, encode_key_views(s).len()),
        ),
    decreases s.len(),
{
    if s.len() > 0 {
        let t = s.drop_first();
        assert(forall|i: int| 0 <= i < t.len() ==> t[i] == s[i + 1]);
        lemma_keys_roundtrip(t, rest);
        let whole = encode_key_views(s) + rest;
        assert(whole =~= encode_key_view(s[0]) + (encode_key_views(t) + rest));
        lemma_key_view_roundtrip(s[0], encode_key_views(t) + rest);
        let k = encode_key_view(s[0]).len();
        assert(whole.skip(k as int) =~= encode_key_views(t) + rest);
        assert(s =~= seq![s[0]] + t);
    } else {
        assert(s =~= Seq::<Seq<u8>>::empty());
    }
}

/// The keys of well-formed entries fit in entries.
pub proof fn lemma_key_views_valid(s: Seq<KeyEntry>)
    requires
        forall|i: int| 0 <= i < s.len() ==> (#[trigger] s[i]).wf(),
    ensures
        valid_key_views(key_views(s)),
{
    assert forall|i: int| 0 <= i < s.len() implies (#[trigger] key_views(s)[i]).len() <= 12 by {
        s[i].lemma_holds(s[i]@);
    }
}

/// Reading back written child pointers gives the same pointers.
pub proof fn lemma_ptrs_roundtrip(s: Seq<u64>, rest: Seq<u8>)
    ensures
        decode_ptrs(encode_ptrs(s) + rest, s.len()) == Ok::<(Seq<u64>, nat), DbErrorView>(
            (s, 8 * s.len()),
        ),
    decreases s.len(),
{
    lemma_encode_ptrs_len(s);
    if s.len() > 0 {
        let t = s.drop_first();
        lemma_ptrs_roundtrip(t, rest);
        let whole = encode_ptrs(s) + rest;
        let tail = encode_ptrs(t) + rest;
        lemma_be_bytes_len(s[0] as nat, 8);
        assert(whole =~= be_bytes(s[0] as nat, 8) + tail);
        lemma_pow256_values();
        lemma_be_value_of_bytes(s[0] as nat, 8);
        let d = Seq::new(s.len(), |i: int| be_value(whole.subrange(8 * i, 8 * i + 8)) as u64);
        let dt = Seq::new(t.len(), |i: int| be_value(tail.subrange(8 * i, 8 * i + 8)) as u64);
        assert(dt =~= t);
        assert forall|i: int| 0 <= i < s.len() implies d[i] == s[i] by {
            if i == 0 {
                assert(whole.subrange(0, 8) =~= be_bytes(s[0] as nat, 8));
            } else {
                assert(whole.subrange(8 * i, 8 * i + 8) =~= tail.subrange(
                    8 * (i - 1),
                    8 * (i - 1) + 8,
                ));
                assert(dt[i - 1] == t[i - 1]);
            }
        }
        assert(d =~= s);
    } else {
        assert(Seq::new(0, |i: int| be_value((encode_ptrs(s) + rest).subrange(8 * i, 8 * i + 8)) as u64)
            =~= s);
    }
}

/// Decoded keys are as many as asked for, and each fits in an entry.
pub proof fn lemma_decode_keys_valid(s: Seq<u8>, n: nat)
    ensures
        decode_keys(s, n) matches Ok((ks, m)) ==> ks.len() == n && valid_key_views(ks),
    decreases n,
{
    if n > 0 {
        if let Ok((v, k)) = KeyEntry::spec_decode(s) {
            lemma_decode_keys_valid(s.skip(k as int), (n - 1) as nat);
            if let Ok((vs, m)) = decode_keys(s.skip(k as int), (n - 1) as nat) {
                let all = seq![v] + vs;
                assert forall|i: int| 0 <= i < all.len() implies (#[trigger] all[i]).len() <= 12 by {
                    if i > 0 {
                        assert(all[i] == vs[i - 1]);
                    }
                }
            }
        }
    }
}

#[derive(Debug, Clone)]
pub struct BTreeInternalPage {
    pub header: PageHeader,
    pub nkey: u16,
    pub keys: Vec<KeyEntry>,
    pub children: Vec<u64>,
}

impl BTreeInternalPage {
    /// The count matches both runs and every key is well formed.
    pub open spec fn wf(&self) -> bool {
        &&& self.nkey == self.keys@.len()
        &&& self.nkey == self.children@.len()
        &&& forall|i: int| 0 <= i < self.keys@.len() ==> (#[trigger] self.keys@[i]).wf()
    }

    /// The bytes of the page on disk: header, count, keys, child pointers.
    pub open spec fn spec_encode(&self) -> Seq<u8> {
        self.header.spec_encode() + be_bytes(self.nkey as nat, 2) + encode_key_views(
            key_views(self.keys@.take(self.nkey as int)),
        ) + encode_ptrs(self.children@.take(self.nkey as int))
    }

    /// What follows the header of an internal page at the front of `s`: the count,
    /// the key bytes and the child pointers, and the bytes they take.
    pub open spec fn spec_decode_body(s: Seq<u8>) -> Decoded<(u16, Seq<Seq<u8>>, Seq<u64>)> {
        if s.len() < 2 {
            Err(eof()@)
        } else {
            let n = be_value(s.subrange(0, 2));
            match decode_keys(s.skip(2), n) {
                Err(e) => Err(e),
                Ok((ks, m)) => match decode_ptrs(s.skip((2 + m) as int), n) {
                    Err(e) => Err(e),
                    Ok((ps, q)) => Ok(((n as u16, ks, ps), 2 + m + q)),
                },
            }
        }
    }

    pub fn new() -> (p: Self)
        ensures
            p.header == PageHeader::new(PageType::Internal),
            p.nkey == 0,
            p.keys@ == Seq::<KeyEntry>::empty(),
            p.children@ == Seq::<u64>::empty(),
    {
        Self {
            header: PageHeader::new(PageType::Internal),
            nkey: 0,
            keys: Vec::with_capacity(INTERNAL_MAX_KEY),
            children: Vec::with_capacity(INTERNAL_MAX_KEY),
        }
    }

    pub fn is_full(&self) -> (r: bool)
        ensures
            r == (self.nkey >= INTERNAL_MAX_KEY),
    {
        self.nkey as usize >= INTERNAL_MAX_KEY
    }

    /// Find last position where key <= find_key
    pub fn find_last_le(&self, find_key: &KeyEntry) -> (r: Option<usize>)
        requires
            self.nkey <= self.keys@.len(),
        ensures
            r == (if upper_key_pos(self.keys@.take(self.nkey as int), *find_key) == 0 {
                None::<usize>
            } else {
                Some((upper_key_pos(self.keys@.take(self.nkey as int), *find_key) - 1) as usize)
            }),
    {
        let ghost e = self.keys@.take(self.nkey as int);
        let mut i: usize = self.nkey as usize;
        assert(e.take(i as int) =~= e);
        while i > 0
            invariant
                i <= self.nkey <= self.keys@.len(),
                e == self.keys@.take(self.nkey as int),
                upper_key_pos(e, *find_key) == upper_key_pos(e.take(i as int), *find_key),
            decreases i,
        {
            let ghost t = e.take(i as int);
            assert(t.last() == self.keys@[i - 1]);
            assert(t.drop_last() =~= e.take(i - 1));
            if self.keys[i - 1].key_le(find_key) {
                return Some(i - 1);
            }
            i = i - 1;
        }
        None
    }

    /// Insert a key-child pair into the internal node
    pub fn insert_kv(&mut self, insert_key: KeyEntry, insert_child_ptr: u64) -> (r: DbResult<()>)
        requires
            old(self).nkey <= old(self).keys@.len(),
            old(self).nkey <= old(self).children@.len(),
        ensures
            old(self).nkey >= INTERNAL_MAX_KEY ==> (r matches Err(DbError::NodeFull)) && *final(self) == *old(self),
            old(self).nkey < INTERNAL_MAX_KEY ==> ({
                let p = upper_key_pos(old(self).keys@.take(old(self).nkey as int), insert_key);
                &&& r is Ok
                &&& final(self).header == old(self).header
                &&& final(self).nkey == old(self).nkey + 1
                &&& final(self).keys@ == old(self).keys@.insert(p, insert_key)
                &&& final(self).children@ == old(self).children@.insert(p, insert_child_ptr)
            }),
            old(self).nkey < INTERNAL_MAX_KEY && old(self).wf() && insert_key.wf() ==> final(self).wf(),
    {
        if self.is_full() {
            return Err(DbError::NodeFull);
        }
        proof {
            lemma_upper_key_pos(self.keys@.take(self.nkey as int), insert_key);
        }
        let pos = match self.find_last_le(&insert_key) {
            Some(p) => p + 1,
            None => 0,
        };
        let ghost before = self.keys@;
        self.keys.insert(pos, insert_key);
        self.children.insert(pos, insert_child_ptr);
        self.nkey = self.nkey + 1;
        proof {
            if old(self).wf() && insert_key.wf() {
                assert forall|i: int| 0 <= i < self.keys@.len() implies (#[trigger] self.keys@[i]).wf() by {
                    if i < pos {
                        assert(self.keys@[i] == before[i]);
                    } else if i > pos {
                        assert(self.keys@[i] == before[i - 1]);
                    }
                }
            }
        }
        Ok(())
    }

    /// Delete key-value at position
    pub fn del_kv_at_pos(&mut self, pos: usize)
        requires
            old(self).nkey == old(self).keys@.len(),
            old(self).keys@.len() == old(self).children@.len(),
        ensures
            pos < old(self).keys@.len() ==> final(self).header == old(self).header && final(self).nkey == old(self).nkey - 1 && final(self).keys@ == old(self).keys@.remove(pos as int)
                && final(self).children@ == old(self).children@.remove(pos as int),
            pos >= old(self).keys@.len() ==> *final(self) == *old(self),
            old(self).wf() ==> final(self).wf(),
    {
        if pos < self.keys.len() {
            let ghost before = self.keys@;
            self.keys.remove(pos);
            self.children.remove(pos);
            self.nkey = self.nkey - 1;
            proof {
                if old(self).wf() {
                    assert forall|i: int| 0 <= i < self.keys@.len() implies (#[trigger] self.keys@[i]).wf() by {
                        if i < pos {
                            assert(self.keys@[i] == before[i]);
                        } else {
                            assert(self.keys@[i] == before[i + 1]);
                        }
                    }
                }
            }
        }
    }

    /// Split node into two equal parts
    pub fn split(&mut self) -> (r: Self)
        requires
            old(self).nkey == old(self).keys@.len(),
            old(self).keys@.len() == old(self).children@.len(),
        ensures
            ({
                let h = (old(self).nkey / 2) as int;
                &&& final(self).header == old(self).header
                &&& final(self).nkey == h
                &&& final(self).keys@ == old(self).keys@.take(h)
                &&& final(self).children@ == old(self).children@.take(h)
                &&& r.header == PageHeader::new(PageType::Internal)
                &&& r.nkey == old(self).nkey - h
                &&& r.keys@ == old(self).keys@.skip(h)
                &&& r.children@ == old(self).children@.skip(h)
                &&& final(self).keys@ + r.keys@ == old(self).keys@
                &&& final(self).children@ + r.children@ == old(self).children@
            }),
            old(self).wf() ==> final(self).wf() && r.wf(),
    {
        let split_pos = self.nkey as usize / 2;
        let new_keys = self.keys.split_off(split_pos);
        let new_children = self.children.split_off(split_pos);
        let new_nkey = new_keys.len() as u16;
        self.nkey = split_pos as u16;
        assert(self.keys@ + new_keys@ =~= old(self).keys@);
        assert(self.children@ + new_children@ =~= old(self).children@);
        assert(old(self).wf() ==> forall|i: int| 0 <= i < new_keys@.len() ==> (#[trigger] new_keys@[i]).wf()) by {
            if old(self).wf() {
                assert forall|i: int| 0 <= i < new_keys@.len() implies (#[trigger] new_keys@[i]).wf() by {
                    assert(new_keys@[i] == old(self).keys@[i + split_pos]);
                }
            }
        }
        assert(old(self).wf() ==> forall|i: int| 0 <= i < self.keys@.len() ==> (#[trigger] self.keys@[i]).wf()) by {
            if old(self).wf() {
                assert forall|i: int| 0 <= i < self.keys@.len() implies (#[trigger] self.keys@[i]).wf() by {
                    assert(self.keys@[i] == old(self).keys@[i]);
                }
            }
        }
        Self {
            header: PageHeader::new(PageType::Internal),
            nkey: new_nkey,
            keys: new_keys,
            children: new_children,
        }
    }

    pub fn write_to(&self, writer: &mut Vec<u8>) -> (r: DbResult<()>)
        requires
            self.nkey <= self.keys@.len(),
            self.nkey <= self.children@.len(),
            forall|j: int| 0 <= j < self.nkey ==> (#[trigger] self.keys@[j]).spec_len() <= 12,
        ensures
            r is Ok,
            final(writer)@ == old(writer)@ + self.spec_encode(),
    {
        self.header.write_to(writer)?;
        append_u16(writer, self.nkey);
        let ghost base = writer@;
        let mut i: usize = 0;
        while i < self.nkey as usize
            invariant
                i <= self.nkey <= self.keys@.len(),
                forall|j: int| 0 <= j < self.nkey ==> (#[trigger] self.keys@[j]).spec_len() <= 12,
                writer@ == base + encode_key_views(key_views(self.keys@.take(i as int))),
            decreases self.nkey - i,
        {
            proof {
                lemma_encode_key_views_push(key_views(self.keys@.take(i as int)), self.keys@[i as int]@);
                assert(key_views(self.keys@.take(i as int)).push(self.keys@[i as int]@) =~= key_views(
                    self.keys@.take(i + 1),
                ));
            }
            self.keys[i].write_to(writer)?;
            i = i + 1;
        }
        let ghost base2 = writer@;
        let mut i: usize = 0;
        while i < self.nkey as usize
            invariant
                i <= self.nkey <= self.children@.len(),
                writer@ == base2 + encode_ptrs(self.children@.take(i as int)),
            decreases self.nkey - i,
        {
            proof {
                lemma_encode_ptrs_push(self.children@.take(i as int), self.children@[i as int]);
                assert(self.children@.take(i as int).push(self.children@[i as int])
                    =~= self.children@.take(i + 1));
            }
            append_u64(writer, self.children[i]);
            i = i + 1;
        }
        assert(writer@ =~= old(writer)@ + self.spec_encode());
        Ok(())
    }

    pub fn read_from(reader: &mut Cursor, header: PageHeader) -> (r: DbResult<Self>)
        ensures
            match BTreeInternalPage::spec_decode_body(old(reader).remaining()) {
                Ok(((n, ks, ps), used)) => r matches Ok(p) && p.header == header && p.nkey == n
                    && p.wf() && key_views(p.keys@) == ks && p.children@ == ps && final(reader).remaining() == old(reader).remaining().skip(used as int),
                Err(e) => r matches Err(x) && x@ == e,
            },
    {
        let ghost s = reader.remaining();
        let nkey = match reader.read_u16_be() {
            Ok(x) => x,
            Err(e) => {
                return Err(e);
            },
        };
        assert(s.take(2) =~= s.subrange(0, 2));
        let ghost s0 = reader.remaining();
        let ghost n = nkey as nat;
        let mut keys: Vec<KeyEntry> = Vec::with_capacity(nkey as usize);
        let ghost mut acc: Seq<Seq<u8>> = Seq::empty();
        let ghost mut used: nat = 0;
        let mut i: u16 = 0;
        assert(s0.skip(0) =~= s0);
        assert(after_prefix(acc, used, decode_keys(s0, n)) =~= decode_keys(s0, n)) by {
            match decode_keys(s0, n) {
                Ok((vs, m)) => {
                    assert(acc + vs =~= vs);
                },
                Err(e) => {},
            }
        }
        while i < nkey
            invariant
                i <= nkey,
                n == nkey,
                keys@.len() == i,
                forall|j: int| 0 <= j < i ==> (#[trigger] keys@[j]).wf(),
                key_views(keys@) == acc,
                used <= s0.len(),
                s == old(reader).remaining(),
                s.len() >= 2,
                s0 == s.skip(2),
                n == be_value(s.subrange(0, 2)),
                reader.remaining() == s0.skip(used as int),
                decode_keys(s0, n) == after_prefix(acc, used, decode_keys(s0.skip(used as int), (n - i) as nat)),
            decreases nkey - i,
        {
            let ghost cur = reader.remaining();
            let item = match KeyEntry::read_from(reader) {
                Ok(x) => x,
                Err(e) => {
                    assert(decode_keys(cur, (n - i) as nat) matches Err(_));
                    return Err(e);
                },
            };
            proof {
                if let Ok((v, k)) = KeyEntry::spec_decode(cur) {
                    lemma_key_entry_decode_len(cur);
                    lemma_decode_keys_step(acc, used, cur, (n - i) as nat, v, k);
                    item.lemma_holds(v);
                    assert(cur.skip(k as int) =~= s0.skip((used + k) as int));
                    acc = acc.push(v);
                    used = used + k;
                }
            }
            keys.push(item);
            i = i + 1;
            assert(key_views(keys@) =~= acc);
        }
        assert(acc + Seq::<Seq<u8>>::empty() =~= acc);
        let ghost s1 = reader.remaining();
        assert(s1 =~= s.skip((2 + used) as int));
        let mut children: Vec<u64> = Vec::with_capacity(nkey as usize);
        let mut i: u16 = 0;
        while i < nkey
            invariant
                i <= nkey,
                n == nkey,
                children@.len() == i,
                s1.len() >= 8 * i,
                reader.remaining() == s1.skip(8 * i),
                forall|j: int| 0 <= j < i ==> children@[j] == be_value(s1.subrange(8 * j, 8 * j + 8)) as u64,
                s == old(reader).remaining(),
                s.len() >= 2,
                n == be_value(s.subrange(0, 2)),
                decode_keys(s.skip(2), n) == Ok::<(Seq<Seq<u8>>, nat), DbErrorView>((acc, used)),
                s1 == s.skip((2 + used) as int),
            decreases nkey - i,
        {
            let ghost cur = reader.remaining();
            let c = match reader.read_u64_be() {
                Ok(x) => x,
                Err(e) => {
                    return Err(e);
                },
            };
            assert(cur.take(8) =~= s1.subrange(8 * i, 8 * i + 8));
            assert(cur.skip(8) =~= s1.skip(8 * (i + 1)));
            children.push(c);
            i = i + 1;
        }
        assert(children@ =~= Seq::new(n, |j: int| be_value(s1.subrange(8 * j, 8 * j + 8)) as u64));
        assert(s1.skip((8 * n) as int) =~= s.skip((2 + used + 8 * n) as int));
        Ok(Self { header, nkey, keys, children })
    }
}

impl Default for BTreeInternalPage {
    fn default() -> (p: Self)
        ensures
            p.header == PageHeader::new(PageType::Internal),
            p.nkey == 0,
            p.keys@ == Seq::<KeyEntry>::empty(),
            p.children@ == Seq::<u64>::empty(),
    {
        Self::new()
    }
}

/// Reading back what `write_to` wrote gives the same page, whatever follows it.
pub proof fn lemma_internal_roundtrip(p: BTreeInternalPage, rest: Seq<u8>)
    requires
        p.wf(),
    ensures
        PageHeader::spec_decode(p.spec_encode() + rest) == Ok::<(PageHeader, nat), DbError>(
            (p.header, 17),
        ),
        BTreeInternalPage::spec_decode_body((p.spec_encode() + rest).skip(17)) == Ok::<
            ((u16, Seq<Seq<u8>>, Seq<u64>), nat),
            DbErrorView,
        >(
            (
                (p.nkey, key_views(p.keys@), p.children@),
                (2 + encode_key_views(key_views(p.keys@)).len() + 8 * p.children@.len()) as nat,
            ),
        ),
{
    let whole = p.spec_encode() + rest;
    assert(p.keys@.take(p.nkey as int) =~= p.keys@);
    assert(p.children@.take(p.nkey as int) =~= p.children@);
    let ptrs = encode_ptrs(p.children@) + rest;
    let body = be_bytes(p.nkey as nat, 2) + encode_key_views(key_views(p.keys@)) + ptrs;
    assert(whole =~= p.header.spec_encode() + body);
    lemma_header_roundtrip(p.header, body);
    assert(whole.skip(17) =~= body);
    lemma_pow256_values();
    lemma_be_bytes_len(p.nkey as nat, 2);
    lemma_be_value_of_bytes(p.nkey as nat, 2);
    assert(body.subrange(0, 2) =~= be_bytes(p.nkey as nat, 2));
    assert(body.skip(2) =~= encode_key_views(key_views(p.keys@)) + ptrs);
    lemma_key_views_valid(p.keys@);
    lemma_keys_roundtrip(key_views(p.keys@), ptrs);
    let m = encode_key_views(key_views(p.keys@)).len();
    assert(body.skip((2 + m) as int) =~= ptrs);
    lemma_ptrs_roundtrip(p.children@, rest);
}

} // verus!
