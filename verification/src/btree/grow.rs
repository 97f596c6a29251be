//! What a lookup finds after an insertion: the order of key bytes, the blocks a
//! lookup reads, and the ordering of separator keys along its path.

use vstd::prelude::*;
use crate::error::DbErrorView;
use super::page::leaf::pad12;
use super::page::order::{lex_le, lex_lt, lemma_lex_lt_irreflexive, lemma_lex_lt_transitive,
    lemma_lex_trichotomy};
use super::disk::{PageView, encode_view, first_key_view, image_ok, lemma_write_then_read, page_at,
    valid_view, write_image};
use super::page::leaf::{KeyVal, kv_views, upper_pos};
use super::walk::{Lookup, find_walk, first_kv_index, page_of, upper_view_pos, lemma_upper_view_pos_bound};

verus! {

/// `a` sorts at or before `b`: both right-aligned in twelve bytes, compared byte by
/// byte.
pub open spec fn sorts_le(a: Seq<u8>, b: Seq<u8>) -> bool {
    lex_le(pad12(a), pad12(b))
}

/// `a` sorts strictly before `b`.
pub open spec fn sorts_lt(a: Seq<u8>, b: Seq<u8>) -> bool {
    lex_lt(pad12(a), pad12(b))
}

/// Keys of at most twelve bytes are totally ordered.
pub proof fn lemma_sorts_total(a: Seq<u8>, b: Seq<u8>)
    requires
        a.len() <= 12,
        b.len() <= 12,
    ensures
        sorts_le(a, b) || sorts_lt(b, a),
        !(sorts_le(a, b) && sorts_lt(b, a)),
        sorts_lt(a, b) ==> sorts_le(a, b),
        sorts_le(a, b) && sorts_le(b, a) ==> pad12(a) == pad12(b),
{
    lemma_lex_trichotomy(pad12(a), pad12(b));
    lemma_lex_lt_irreflexive(pad12(a));
}

/// The order on keys is transitive.
pub proof fn lemma_sorts_trans(a: Seq<u8>, b: Seq<u8>, c: Seq<u8>)
    requires
        a.len() <= 12,
        b.len() <= 12,
        c.len() <= 12,
    ensures
        sorts_le(a, b) && sorts_le(b, c) ==> sorts_le(a, c),
        sorts_le(a, b) && sorts_lt(b, c) ==> sorts_lt(a, c),
        sorts_lt(a, b) && sorts_le(b, c) ==> sorts_lt(a, c),
{
    if sorts_lt(a, b) && sorts_lt(b, c) {
        lemma_lex_lt_transitive(pad12(a), pad12(b), pad12(c));
    }
}

/// The keys are in ascending order.
pub open spec fn keys_sorted(ks: Seq<Seq<u8>>) -> bool {
    forall|i: int, j: int| 0 <= i < j < ks.len() ==> sorts_le(#[trigger] ks[i], #[trigger] ks[j])
}

/// Every key sorts at or after `lo` and before `hi`, where they are given.
pub open spec fn keys_within(ks: Seq<Seq<u8>>, lo: Option<Seq<u8>>, hi: Option<Seq<u8>>) -> bool {
    forall|i: int|
        0 <= i < ks.len() ==> (lo matches Some(l) ==> sorts_le(l, #[trigger] ks[i])) && (hi matches Some(
            h,
        ) ==> sorts_lt(ks[i], h))
}

/// `k` sorts at or after `lo` and before `hi`, where they are given.
pub open spec fn key_within(k: Seq<u8>, lo: Option<Seq<u8>>, hi: Option<Seq<u8>>) -> bool {
    &&& lo matches Some(l) ==> sorts_le(l, k)
    &&& hi matches Some(h) ==> sorts_lt(k, h)
}

/// The keys of a page: the separators of an internal page, the entry keys of a leaf.
pub open spec fn page_keys(v: PageView) -> Seq<Seq<u8>> {
    match v {
        PageView::Internal { keys, .. } => keys,
        PageView::Leaf { kvs, .. } => kvs.map_values(|kv: (Seq<u8>, Seq<u8>)| kv.0),
    }
}

/// What a lookup of `key` finds from the page `v`, its children read from `img`
/// with `budget` pages left.
pub open spec fn find_from(img: Seq<Seq<u8>>, v: PageView, key: Seq<u8>, budget: nat) -> Lookup {
    match v {
        PageView::Internal { keys, children, .. } => {
            let p = upper_view_pos(keys, key);
            if p == 0 {
                Lookup::Stuck
            } else if p - 1 < children.len() {
                find_walk(img, children[p - 1], key, budget)
            } else {
                Lookup::Found(None)
            }
        },
        PageView::Leaf { kvs, .. } => match first_kv_index(kvs, key) {
            Some(i) => Lookup::Found(Some(kvs[i])),
            None => Lookup::Found(None),
        },
    }
}

/// A lookup at a block that reads as a page goes on as a lookup from that page.
pub proof fn lemma_find_step(img: Seq<Seq<u8>>, ptr: u64, key: Seq<u8>, budget: nat)
    requires
        budget > 0,
        key.len() <= 12,
        page_at(img, ptr) is Ok,
    ensures
        find_walk(img, ptr, key, budget) == find_from(img, page_at(img, ptr)->Ok_0, key, (budget - 1) as nat),
{
}

/// The child an insertion of `key` follows among separators `keys`: the one after
/// the last separator at or before `key`, or the first when there is none.
pub open spec fn route(keys: Seq<Seq<u8>>, key: Seq<u8>) -> int {
    if upper_view_pos(keys, key) == 0 {
        0
    } else {
        upper_view_pos(keys, key) - 1
    }
}

/// What the leaf that an insertion of `key` from `ptr` reaches holds for `key`,
/// visiting at most `budget` pages: a lookup, except that it goes on to the first
/// child where the key sorts before every separator.
pub open spec fn ins_walk(img: Seq<Seq<u8>>, ptr: u64, key: Seq<u8>, budget: nat) -> Lookup
    decreases budget,
{
    if budget == 0 {
        Lookup::Failed(DbErrorView::InvalidFormat(super::disk::cycle_message()))
    } else {
        match page_at(img, ptr) {
            Err(e) => Lookup::Failed(e),
            Ok(PageView::Internal { keys, children, .. }) => {
                if key.len() > 12 {
                    Lookup::Failed(DbErrorView::KeySizeExceeded(key.len() as usize, 12))
                } else if keys.len() == 0 {
                    Lookup::Stuck
                } else if route(keys, key) < children.len() {
                    ins_walk(img, children[route(keys, key)], key, (budget - 1) as nat)
                } else {
                    Lookup::Found(None)
                }
            },
            Ok(PageView::Leaf { kvs, .. }) => match first_kv_index(kvs, key) {
                Some(i) => Lookup::Found(Some(kvs[i])),
                None => Lookup::Found(None),
            },
        }
    }
}

/// Every page along the insertion walk of `key` from `ptr` reads as a page and has
/// room for one more entry: an insertion there never meets a full page.
pub open spec fn room_on_path(img: Seq<Seq<u8>>, ptr: u64, key: Seq<u8>, budget: nat) -> bool
    decreases budget,
{
    budget > 0 && match page_at(img, ptr) {
        Ok(PageView::Internal { keys, children, .. }) => keys.len() < 64 && (keys.len() > 0 ==> room_on_path(
            img,
            children[route(keys, key)],
            key,
            (budget - 1) as nat,
        )),
        Ok(PageView::Leaf { kvs, .. }) => kvs.len() < 32,
        Err(_) => false,
    }
}

/// Where a lookup finds its leaf, an insertion's walk goes the same way.
pub proof fn lemma_find_ins(img: Seq<Seq<u8>>, ptr: u64, key: Seq<u8>, budget: nat)
    requires
        find_walk(img, ptr, key, budget) is Found,
    ensures
        ins_walk(img, ptr, key, budget) == find_walk(img, ptr, key, budget),
        walk_blocks(img, ptr, key, budget).len() >= 1,
    decreases budget,
{
    match page_at(img, ptr) {
        Ok(PageView::Internal { keys, children, .. }) => {
            let p = upper_view_pos(keys, key);
            lemma_upper_view_pos_bound(keys, key);
            if p > 0 && p - 1 < children.len() {
                lemma_find_ins(img, children[p - 1], key, (budget - 1) as nat);
            }
        },
        _ => {},
    }
}

/// The blocks that an insertion of `key` from `ptr` reads, in order: a lookup's
/// path, except that a key that sorts before every separator of a page goes on to
/// the first child.
pub open spec fn walk_blocks(img: Seq<Seq<u8>>, ptr: u64, key: Seq<u8>, budget: nat) -> Seq<u64>
    decreases budget,
{
    if budget == 0 {
        Seq::empty()
    } else {
        match page_at(img, ptr) {
            Ok(PageView::Internal { keys, children, .. }) => {
                let r = route(keys, key);
                if key.len() <= 12 && keys.len() > 0 && r < children.len() {
                    seq![ptr] + walk_blocks(img, children[r], key, (budget - 1) as nat)
                } else {
                    seq![ptr]
                }
            },
            _ => seq![ptr],
        }
    }
}

/// `w` reads every block of `s` as `img` does.
pub open spec fn agree_on(w: Seq<Seq<u8>>, img: Seq<Seq<u8>>, s: Seq<u64>) -> bool {
    forall|i: int| 0 <= i < s.len() ==> page_at(w, #[trigger] s[i]) == page_at(img, s[i])
}

/// The block that an insertion's walk of `key` goes on to from block `q`, if it
/// goes on.
pub open spec fn next_block(img: Seq<Seq<u8>>, q: u64, key: Seq<u8>) -> Option<u64> {
    match page_at(img, q) {
        Ok(PageView::Internal { keys, children, .. }) => {
            let r = route(keys, key);
            if key.len() <= 12 && keys.len() > 0 && r < children.len() {
                Some(children[r])
            } else {
                None
            }
        },
        _ => None,
    }
}

/// The path of an insertion's walk: it starts at `ptr`, each block leads to the
/// next, and a walk that reaches its leaf ends at a block that leads nowhere.
pub proof fn lemma_walk_chain(img: Seq<Seq<u8>>, ptr: u64, key: Seq<u8>, budget: nat)
    ensures
        ({
            let s = walk_blocks(img, ptr, key, budget);
            &&& s.len() <= budget
            &&& budget > 0 ==> s.len() >= 1 && s[0] == ptr
            &&& forall|k: int| 0 <= k < s.len() - 1 ==> next_block(img, #[trigger] s[k], key) == Some(s[k + 1])
            &&& ins_walk(img, ptr, key, budget) is Found ==> s.len() >= 1 && next_block(img, s.last(), key) is None
            &&& ins_walk(img, ptr, key, budget) is Found ==> forall|k: int| 0 <= k < s.len() ==> page_at(img, #[trigger] s[k]) is Ok
        }),
    decreases budget,
{
    if budget > 0 {
        let s = walk_blocks(img, ptr, key, budget);
        match page_at(img, ptr) {
            Ok(PageView::Internal { keys, children, .. }) => {
                let r = route(keys, key);
                lemma_upper_view_pos_bound(keys, key);
                if key.len() <= 12 && keys.len() > 0 && r < children.len() {
                    let c = children[r];
                    let t = walk_blocks(img, c, key, (budget - 1) as nat);
                    lemma_walk_chain(img, c, key, (budget - 1) as nat);
                    assert forall|k: int| 0 <= k < s.len() - 1 implies next_block(img, #[trigger] s[k], key) == Some(s[k + 1]) by {
                        if k == 0 {
                            assert(s[1] == t[0]);
                        } else {
                            assert(s[k] == t[k - 1]);
                            assert(s[k + 1] == t[k]);
                        }
                    }
                    if ins_walk(img, ptr, key, budget) is Found {
                        assert(ins_walk(img, ptr, key, budget) == ins_walk(img, c, key, (budget - 1) as nat));
                        assert(s.last() == t.last());
                        assert forall|k: int| 0 <= k < s.len() implies page_at(img, #[trigger] s[k]) is Ok by {
                            if k > 0 {
                                assert(s[k] == t[k - 1]);
                            }
                        }
                    }
                }
            },
            _ => {},
        }
    }
}

/// A chain of blocks where each leads to the next and the last leads nowhere holds
/// no block twice.
proof fn lemma_chain_distinct(img: Seq<Seq<u8>>, s: Seq<u64>, key: Seq<u8>, i: int, j: int)
    requires
        s.len() >= 1,
        forall|k: int| 0 <= k < s.len() - 1 ==> next_block(img, #[trigger] s[k], key) == Some(s[k + 1]),
        next_block(img, s.last(), key) is None,
        0 <= i < j < s.len(),
    ensures
        s[i] != s[j],
    decreases s.len() - j,
{
    if s[i] == s[j] {
        if j == s.len() - 1 {
            assert(next_block(img, s[i], key) == Some(s[i + 1]));
        } else {
            assert(next_block(img, s[i], key) == Some(s[i + 1]));
            assert(next_block(img, s[j], key) == Some(s[j + 1]));
            lemma_chain_distinct(img, s, key, i + 1, j + 1);
        }
    }
}

/// An insertion's walk that reaches its leaf never comes back to the block it
/// started from.
pub proof fn lemma_walk_no_return(img: Seq<Seq<u8>>, ptr: u64, key: Seq<u8>, budget: nat)
    requires
        ins_walk(img, ptr, key, budget) is Found,
    ensures
        walk_blocks(img, ptr, key, budget).len() >= 1,
        walk_blocks(img, ptr, key, budget)[0] == ptr,
        !walk_blocks(img, ptr, key, budget).drop_first().contains(ptr),
{
    let s = walk_blocks(img, ptr, key, budget);
    lemma_walk_chain(img, ptr, key, budget);
    if s.drop_first().contains(ptr) {
        let j = choose|j: int| 0 <= j < s.drop_first().len() && s.drop_first()[j] == ptr;
        assert(s[j + 1] == ptr);
        lemma_chain_distinct(img, s, key, 0, j + 1);
    }
}

/// A bound, where given, has at most twelve bytes.
pub open spec fn bound_fits(b: Option<Seq<u8>>) -> bool {
    b matches Some(k) ==> k.len() <= 12
}

/// Every key of `ks` has at most twelve bytes.
pub open spec fn keys_fit(ks: Seq<Seq<u8>>) -> bool {
    forall|i: int| 0 <= i < ks.len() ==> (#[trigger] ks[i]).len() <= 12
}

/// Where `key` goes among `ks`: after the last key at or before it, and every key
/// from there on sorts after it.
pub proof fn lemma_upper_facts(ks: Seq<Seq<u8>>, key: Seq<u8>)
    requires
        keys_fit(ks),
        key.len() <= 12,
    ensures
        0 <= upper_view_pos(ks, key) <= ks.len(),
        upper_view_pos(ks, key) > 0 ==> sorts_le(ks[upper_view_pos(ks, key) - 1], key),
        forall|i: int| upper_view_pos(ks, key) <= i < ks.len() ==> sorts_lt(key, #[trigger] ks[i]),
    decreases ks.len(),
{
    lemma_upper_view_pos_bound(ks, key);
    if ks.len() > 0 {
        let t = ks.drop_last();
        if !sorts_le(ks.last(), key) {
            lemma_upper_facts(t, key);
            lemma_sorts_total(ks.last(), key);
            assert forall|i: int| upper_view_pos(ks, key) <= i < ks.len() implies sorts_lt(key, #[trigger] ks[i]) by {
                if i < t.len() {
                    assert(ks[i] == t[i]);
                }
            }
        }
    }
}

/// A position after a key at or before `key` and before keys that all sort after
/// it is where `key` goes.
pub proof fn lemma_upper_unique(ks: Seq<Seq<u8>>, key: Seq<u8>, u: int)
    requires
        keys_fit(ks),
        key.len() <= 12,
        0 <= u <= ks.len(),
        u > 0 ==> sorts_le(ks[u - 1], key),
        forall|i: int| u <= i < ks.len() ==> sorts_lt(key, #[trigger] ks[i]),
    ensures
        upper_view_pos(ks, key) == u,
    decreases ks.len(),
{
    if ks.len() > 0 {
        let t = ks.drop_last();
        if u == ks.len() {
        } else {
            assert(sorts_lt(key, ks[ks.len() - 1]));
            lemma_sorts_total(key, ks.last());
            assert forall|i: int| u <= i < t.len() implies sorts_lt(key, #[trigger] t[i]) by {
                assert(t[i] == ks[i]);
            }
            if u > 0 {
                assert(t[u - 1] == ks[u - 1]);
            }
            lemma_upper_unique(t, key, u);
        }
    }
}

/// In sorted keys, every key before where `key` goes sorts at or before it.
pub proof fn lemma_upper_sorted(ks: Seq<Seq<u8>>, key: Seq<u8>)
    requires
        keys_fit(ks),
        keys_sorted(ks),
        key.len() <= 12,
    ensures
        forall|i: int| 0 <= i < upper_view_pos(ks, key) ==> sorts_le(#[trigger] ks[i], key),
{
    lemma_upper_facts(ks, key);
    let u = upper_view_pos(ks, key);
    assert forall|i: int| 0 <= i < u implies sorts_le(#[trigger] ks[i], key) by {
        if i < u - 1 {
            lemma_sorts_trans(ks[i], ks[u - 1], key);
        }
    }
}

/// Where `key` goes among the first `h` of sorted keys, and among the rest.
pub proof fn lemma_upper_split(ks: Seq<Seq<u8>>, key: Seq<u8>, h: int)
    requires
        keys_fit(ks),
        keys_sorted(ks),
        key.len() <= 12,
        0 <= h <= ks.len(),
    ensures
        upper_view_pos(ks, key) <= h ==> upper_view_pos(ks.take(h), key) == upper_view_pos(ks, key),
        upper_view_pos(ks, key) >= h ==> upper_view_pos(ks.skip(h), key) == upper_view_pos(ks, key) - h,
{
    let u = upper_view_pos(ks, key);
    lemma_upper_facts(ks, key);
    lemma_upper_sorted(ks, key);
    let a = ks.take(h);
    let b = ks.skip(h);
    assert(keys_fit(a)) by {
        assert forall|i: int| 0 <= i < a.len() implies (#[trigger] a[i]).len() <= 12 by {
            assert(a[i] == ks[i]);
        }
    }
    assert(keys_fit(b)) by {
        assert forall|i: int| 0 <= i < b.len() implies (#[trigger] b[i]).len() <= 12 by {
            assert(b[i] == ks[i + h]);
        }
    }
    if u <= h {
        assert forall|i: int| u <= i < a.len() implies sorts_lt(key, #[trigger] a[i]) by {
            assert(a[i] == ks[i]);
        }
        if u > 0 {
            assert(a[u - 1] == ks[u - 1]);
        }
        lemma_upper_unique(a, key, u);
    }
    if u >= h {
        assert forall|i: int| u - h <= i < b.len() implies sorts_lt(key, #[trigger] b[i]) by {
            assert(b[i] == ks[i + h]);
        }
        if u - h > 0 {
            assert(b[u - h - 1] == ks[u - 1]);
        }
        lemma_upper_unique(b, key, u - h);
    }
}

/// The keys of a run of entries.
pub open spec fn entry_keys(kvs: Seq<(Seq<u8>, Seq<u8>)>) -> Seq<Seq<u8>> {
    kvs.map_values(|kv: (Seq<u8>, Seq<u8>)| kv.0)
}

/// A leaf whose entry keys are sorted and within bounds, and lack `key`, takes a
/// new entry for `key` where `upper_view_pos` points: its keys stay sorted and
/// within bounds, the new entry is the first with its key, and the keys before it
/// sort at or before it and those after it sort after it.
pub proof fn lemma_leaf_insert(
    kvs: Seq<(Seq<u8>, Seq<u8>)>,
    key: Seq<u8>,
    val: Seq<u8>,
    lo: Option<Seq<u8>>,
    hi: Option<Seq<u8>>,
)
    requires
        keys_fit(entry_keys(kvs)),
        keys_sorted(entry_keys(kvs)),
        keys_within(entry_keys(kvs), lo, hi),
        key_within(key, lo, hi),
        key.len() <= 12,
        first_kv_index(kvs, key) is None,
    ensures
        ({
            let u = upper_view_pos(entry_keys(kvs), key);
            let n = kvs.insert(u, (key, val));
            &&& 0 <= u <= kvs.len()
            &&& entry_keys(n) == entry_keys(kvs).insert(u, key)
            &&& keys_fit(entry_keys(n))
            &&& keys_sorted(entry_keys(n))
            &&& keys_within(entry_keys(n), lo, hi)
            &&& n[u] == (key, val)
            &&& first_kv_index(n, key) == Some(u)
            &&& forall|i: int| 0 <= i <= u ==> sorts_le(#[trigger] entry_keys(n)[i], key)
            &&& forall|i: int| u < i < n.len() ==> sorts_lt(key, #[trigger] entry_keys(n)[i])
            &&& forall|i: int| 0 <= i < n.len() && i != u ==> (#[trigger] n[i]).0 != key
        }),
{
    let ks = entry_keys(kvs);
    let u = upper_view_pos(ks, key);
    let n = kvs.insert(u, (key, val));
    lemma_upper_facts(ks, key);
    lemma_upper_sorted(ks, key);
    super::walk::lemma_first_kv_index(kvs, key);
    assert(entry_keys(n) =~= ks.insert(u, key));
    let nk = entry_keys(n);
    assert forall|i: int| 0 <= i < n.len() && i != u implies (#[trigger] n[i]).0 != key by {
        if i < u {
            assert(n[i] == kvs[i]);
        } else {
            assert(n[i] == kvs[i - 1]);
        }
    }
    assert forall|i: int| 0 <= i <= u implies sorts_le(#[trigger] nk[i], key) by {
        if i < u {
            assert(nk[i] == ks[i]);
        } else {
            lemma_lex_lt_irreflexive(pad12(key));
        }
    }
    assert forall|i: int| u < i < n.len() implies sorts_lt(key, #[trigger] nk[i]) by {
        assert(nk[i] == ks[i - 1]);
    }
    assert(keys_fit(nk)) by {
        assert forall|i: int| 0 <= i < nk.len() implies (#[trigger] nk[i]).len() <= 12 by {
            if i < u {
                assert(nk[i] == ks[i]);
            } else if i > u {
                assert(nk[i] == ks[i - 1]);
            }
        }
    }
    assert(keys_sorted(nk)) by {
        assert forall|i: int, j: int| 0 <= i < j < nk.len() implies sorts_le(#[trigger] nk[i], #[trigger] nk[j]) by {
            if j < u {
                assert(nk[i] == ks[i] && nk[j] == ks[j]);
            } else if i > u {
                assert(nk[i] == ks[i - 1] && nk[j] == ks[j - 1]);
            } else if j == u {
            } else if i == u {
                lemma_sorts_total(key, nk[j]);
            } else {
                // i < u < j
                assert(sorts_le(nk[i], key));
                lemma_sorts_trans(nk[i], key, nk[j]);
                lemma_sorts_total(nk[i], nk[j]);
            }
        }
    }
    assert(keys_within(nk, lo, hi)) by {
        assert forall|i: int| 0 <= i < nk.len() implies (lo matches Some(l) ==> sorts_le(l, #[trigger] nk[i])) && (hi matches Some(h) ==> sorts_lt(nk[i], h)) by {
            if i < u {
                assert(nk[i] == ks[i]);
            } else if i > u {
                assert(nk[i] == ks[i - 1]);
            }
        }
    }
    assert forall|j: int| 0 <= j < u implies (#[trigger] n[j]).0 != key by {}
    super::walk::lemma_first_kv_index_is(n, key, u);
}

/// Splitting such a leaf at `h`: the entry is in the first part when its key sorts
/// before the first key of the second part, and in the second part otherwise; the
/// first part's first key sorts at or before both.
pub proof fn lemma_leaf_split(n: Seq<(Seq<u8>, Seq<u8>)>, key: Seq<u8>, u: int, h: int)
    requires
        keys_fit(entry_keys(n)),
        keys_sorted(entry_keys(n)),
        key.len() <= 12,
        0 <= u < n.len(),
        0 < h < n.len(),
        n[u].0 == key,
        forall|i: int| 0 <= i <= u ==> sorts_le(#[trigger] entry_keys(n)[i], key),
        forall|i: int| u < i < n.len() ==> sorts_lt(key, #[trigger] entry_keys(n)[i]),
        forall|i: int| 0 <= i < n.len() && i != u ==> (#[trigger] n[i]).0 != key,
    ensures
        sorts_lt(key, n[h].0) ==> u < h && first_kv_index(n.take(h), key) == Some(u),
        sorts_le(n[h].0, key) ==> u >= h && first_kv_index(n.skip(h), key) == Some(u - h),
        sorts_le(n[0].0, n[h].0),
        sorts_le(n[0].0, key),
{
    let nk = entry_keys(n);
    assert(nk[h] == n[h].0);
    assert(nk[0] == n[0].0);
    assert(nk[u] == n[u].0);
    assert(sorts_le(nk[0], nk[h]));
    assert(sorts_le(nk[0], key));
    lemma_sorts_total(key, n[h].0);
    if sorts_lt(key, n[h].0) {
        if u >= h {
            assert(sorts_le(nk[h], key));
        }
        let a = n.take(h);
        assert forall|j: int| 0 <= j < u implies (#[trigger] a[j]).0 != key by {
            assert(a[j] == n[j]);
        }
        super::walk::lemma_first_kv_index_is(a, key, u);
    }
    if sorts_le(n[h].0, key) {
        if u < h {
            assert(sorts_lt(key, nk[h]));
        }
        let b = n.skip(h);
        assert(b[u - h] == n[u]);
        assert forall|j: int| 0 <= j < u - h implies (#[trigger] b[j]).0 != key by {
            assert(b[j] == n[j + h]);
        }
        super::walk::lemma_first_kv_index_is(b, key, u - h);
    }
}

/// Replacing the separator of the child that an insertion of `key` follows by a
/// key within the child's bounds and at or before `key` keeps the separators sorted
/// and within bounds, and a lookup of `key` then follows that child.
pub proof fn lemma_parent_update(
    ks: Seq<Seq<u8>>,
    key: Seq<u8>,
    kl: Seq<u8>,
    lo: Option<Seq<u8>>,
    hi: Option<Seq<u8>>,
)
    requires
        bound_fits(lo),
        bound_fits(hi),
        keys_fit(ks),
        keys_sorted(ks),
        keys_within(ks, lo, hi),
        key.len() <= 12,
        key_within(key, lo, hi),
        kl.len() <= 12,
        ks.len() > 0,
        key_within(kl, child_lo(ks, key, lo), child_hi(ks, key, hi)),
        sorts_le(kl, key),
    ensures
        ({
            let r = route(ks, key);
            let k1 = ks.update(r, kl);
            &&& 0 <= r < ks.len()
            &&& keys_fit(k1)
            &&& keys_sorted(k1)
            &&& keys_within(k1, lo, hi)
            &&& upper_view_pos(k1, key) == r + 1
        }),
{
    let p = upper_view_pos(ks, key);
    let r = route(ks, key);
    let k1 = ks.update(r, kl);
    lemma_upper_facts(ks, key);
    lemma_upper_sorted(ks, key);
    assert(keys_fit(k1)) by {
        assert forall|i: int| 0 <= i < k1.len() implies (#[trigger] k1[i]).len() <= 12 by {
            if i != r {
                assert(k1[i] == ks[i]);
            }
        }
    }
    assert(keys_sorted(k1)) by {
        assert forall|i: int, j: int| 0 <= i < j < k1.len() implies sorts_le(#[trigger] k1[i], #[trigger] k1[j]) by {
            if j == r {
                assert(p > 0);
                lemma_sorts_trans(ks[i], ks[r], kl);
            } else if i == r {
                assert(sorts_lt(kl, ks[r + 1]));
                if j > r + 1 {
                    lemma_sorts_trans(kl, ks[r + 1], ks[j]);
                }
                lemma_sorts_total(kl, ks[j]);
            } else {
                assert(k1[i] == ks[i] && k1[j] == ks[j]);
            }
        }
    }
    assert(keys_within(k1, lo, hi)) by {
        assert forall|i: int| 0 <= i < k1.len() implies (lo matches Some(l) ==> sorts_le(l, #[trigger] k1[i])) && (hi matches Some(h) ==> sorts_lt(k1[i], h)) by {
            if i == r {
                if let Some(l) = lo {
                    if p > 0 {
                        lemma_sorts_trans(l, ks[r], kl);
                    }
                }
                if let Some(h) = hi {
                    if r + 1 < ks.len() {
                        lemma_sorts_trans(kl, ks[r + 1], h);
                        lemma_sorts_total(kl, h);
                    }
                }
            } else {
                assert(k1[i] == ks[i]);
            }
        }
    }
    assert forall|i: int| r + 1 <= i < k1.len() implies sorts_lt(key, #[trigger] k1[i]) by {
        assert(k1[i] == ks[i]);
    }
    lemma_upper_unique(k1, key, r + 1);
}

/// A new separator `kr` that sorts at or after the one a lookup of `key` follows and
/// before the next goes right after it; the separators stay sorted and within
/// bounds, and the lookup follows the new one exactly when `kr` sorts at or before
/// `key`.
pub proof fn lemma_parent_insert(
    ks: Seq<Seq<u8>>,
    key: Seq<u8>,
    kr: Seq<u8>,
    lo: Option<Seq<u8>>,
    hi: Option<Seq<u8>>,
)
    requires
        bound_fits(lo),
        bound_fits(hi),
        keys_fit(ks),
        keys_sorted(ks),
        keys_within(ks, lo, hi),
        key.len() <= 12,
        key_within(key, lo, hi),
        kr.len() <= 12,
        upper_view_pos(ks, key) > 0,
        sorts_le(ks[upper_view_pos(ks, key) - 1], kr),
        key_within(
            kr,
            None,
            if upper_view_pos(ks, key) < ks.len() {
                Some(ks[upper_view_pos(ks, key)])
            } else {
                hi
            },
        ),
    ensures
        ({
            let p = upper_view_pos(ks, key);
            let k2 = ks.insert(p, kr);
            &&& upper_view_pos(ks, kr) == p
            &&& keys_fit(k2)
            &&& keys_sorted(k2)
            &&& keys_within(k2, lo, hi)
            &&& sorts_lt(key, kr) ==> upper_view_pos(k2, key) == p
            &&& sorts_le(kr, key) ==> upper_view_pos(k2, key) == p + 1
        }),
{
    let p = upper_view_pos(ks, key);
    let k2 = ks.insert(p, kr);
    lemma_upper_facts(ks, key);
    lemma_upper_sorted(ks, key);
    // every separator from `p` on sorts after `kr`
    assert forall|i: int| p <= i < ks.len() implies sorts_lt(kr, #[trigger] ks[i]) by {
        if i > p {
            lemma_sorts_trans(kr, ks[p], ks[i]);
        }
    }
    lemma_upper_unique(ks, kr, p);
    assert(keys_fit(k2)) by {
        assert forall|i: int| 0 <= i < k2.len() implies (#[trigger] k2[i]).len() <= 12 by {
            if i < p {
                assert(k2[i] == ks[i]);
            } else if i > p {
                assert(k2[i] == ks[i - 1]);
            }
        }
    }
    assert(keys_sorted(k2)) by {
        assert forall|i: int, j: int| 0 <= i < j < k2.len() implies sorts_le(#[trigger] k2[i], #[trigger] k2[j]) by {
            if j < p {
                assert(k2[i] == ks[i] && k2[j] == ks[j]);
            } else if i > p {
                assert(k2[i] == ks[i - 1] && k2[j] == ks[j - 1]);
            } else if j == p {
                assert(k2[i] == ks[i]);
                lemma_sorts_trans(ks[i], ks[p - 1], kr);
            } else if i == p {
                assert(k2[j] == ks[j - 1]);
                lemma_sorts_total(kr, ks[j - 1]);
            } else {
                assert(k2[i] == ks[i] && k2[j] == ks[j - 1]);
            }
        }
    }
    assert(keys_within(k2, lo, hi)) by {
        assert forall|i: int| 0 <= i < k2.len() implies (lo matches Some(l) ==> sorts_le(l, #[trigger] k2[i])) && (hi matches Some(h) ==> sorts_lt(k2[i], h)) by {
            if i < p {
                assert(k2[i] == ks[i]);
            } else if i > p {
                assert(k2[i] == ks[i - 1]);
            } else {
                if let Some(l) = lo {
                    lemma_sorts_trans(l, ks[p - 1], kr);
                }
                if let Some(h) = hi {
                    if p < ks.len() {
                        lemma_sorts_trans(kr, ks[p], h);
                    }
                }
            }
        }
    }
    lemma_sorts_total(key, kr);
    if sorts_lt(key, kr) {
        assert forall|i: int| p <= i < k2.len() implies sorts_lt(key, #[trigger] k2[i]) by {
            if i > p {
                assert(k2[i] == ks[i - 1]);
            }
        }
        assert(k2[p - 1] == ks[p - 1]);
        lemma_upper_unique(k2, key, p);
    }
    if sorts_le(kr, key) {
        assert forall|i: int| p + 1 <= i < k2.len() implies sorts_lt(key, #[trigger] k2[i]) by {
            assert(k2[i] == ks[i - 1]);
        }
        lemma_upper_unique(k2, key, p + 1);
    }
}

/// Splitting sorted separators at `h`: a lookup of `key` goes to the first part when
/// `key` sorts before the first separator of the second part, with the same
/// position, and to the second part otherwise, at a position shifted by `h`.
pub proof fn lemma_internal_split(ks: Seq<Seq<u8>>, key: Seq<u8>, h: int)
    requires
        keys_fit(ks),
        keys_sorted(ks),
        key.len() <= 12,
        0 < h < ks.len(),
        upper_view_pos(ks, key) > 0,
    ensures
        sorts_lt(key, ks[h]) ==> upper_view_pos(ks, key) <= h && upper_view_pos(ks.take(h), key)
            == upper_view_pos(ks, key),
        sorts_le(ks[h], key) ==> upper_view_pos(ks, key) > h && upper_view_pos(ks.skip(h), key)
            == upper_view_pos(ks, key) - h,
        sorts_le(ks[0], ks[h]),
        sorts_le(ks[0], key),
{
    let u = upper_view_pos(ks, key);
    lemma_upper_facts(ks, key);
    lemma_upper_sorted(ks, key);
    lemma_upper_split(ks, key, h);
    lemma_sorts_total(key, ks[h]);
    if sorts_lt(key, ks[h]) && u > h {
        assert(sorts_le(ks[h], key));
    }
    if sorts_le(ks[h], key) && u <= h {
        assert(sorts_lt(key, ks[h]));
    }
}

/// The bounds of the child that an insertion of `key` follows from separators
/// `keys` of a page with bounds `lo` and `hi`.
pub open spec fn child_lo(keys: Seq<Seq<u8>>, key: Seq<u8>, lo: Option<Seq<u8>>) -> Option<Seq<u8>> {
    if upper_view_pos(keys, key) == 0 {
        lo
    } else {
        Some(keys[upper_view_pos(keys, key) - 1])
    }
}

pub open spec fn child_hi(keys: Seq<Seq<u8>>, key: Seq<u8>, hi: Option<Seq<u8>>) -> Option<Seq<u8>> {
    if route(keys, key) + 1 < keys.len() {
        Some(keys[route(keys, key) + 1])
    } else {
        hi
    }
}

/// Along the insertion walk of `key` from `ptr`, the keys of every page are sorted
/// and lie at or after `lo` and before `hi` (where given); a child's bounds are the
/// separator that the walk follows (or the page's own lower bound, for the first
/// child when `key` sorts before every separator) and the next one.
pub open spec fn ordered_walk(
    img: Seq<Seq<u8>>,
    ptr: u64,
    key: Seq<u8>,
    budget: nat,
    lo: Option<Seq<u8>>,
    hi: Option<Seq<u8>>,
) -> bool
    decreases budget,
{
    budget > 0 && match page_at(img, ptr) {
        Ok(v) => {
            &&& keys_sorted(page_keys(v))
            &&& keys_within(page_keys(v), lo, hi)
            &&& match v {
                PageView::Internal { keys, children, .. } => {
                    (key.len() <= 12 && keys.len() > 0 && route(keys, key) < children.len()) ==> ordered_walk(
                        img,
                        children[route(keys, key)],
                        key,
                        (budget - 1) as nat,
                        child_lo(keys, key, lo),
                        child_hi(keys, key, hi),
                    )
                },
                PageView::Leaf { .. } => true,
            }
        },
        Err(_) => true,
    }
}

/// `w` reads every block of `s`, and every block from `lo` up to `hi`, as `img`
/// does.
pub open spec fn reads_alike(w: Seq<Seq<u8>>, img: Seq<Seq<u8>>, s: Seq<u64>, lo: u64, hi: u64) -> bool {
    &&& agree_on(w, img, s)
    &&& forall|q: u64| lo <= q < hi ==> page_at(w, q) == page_at(img, q)
}

/// A lookup that finds its leaf finds the same with a larger budget.
pub proof fn lemma_find_budget(img: Seq<Seq<u8>>, ptr: u64, key: Seq<u8>, b: nat, c: nat)
    requires
        find_walk(img, ptr, key, b) is Found,
        b <= c,
    ensures
        find_walk(img, ptr, key, c) == find_walk(img, ptr, key, b),
    decreases b,
{
    if b > 0 {
        match page_at(img, ptr) {
            Ok(PageView::Internal { keys, children, .. }) => {
                let p = upper_view_pos(keys, key);
                lemma_upper_view_pos_bound(keys, key);
                if key.len() <= 12 && p > 0 && p - 1 < children.len() {
                    lemma_find_budget(img, children[p - 1], key, (b - 1) as nat, (c - 1) as nat);
                }
            },
            _ => {},
        }
    }
}

/// The same for a lookup from a page.
pub proof fn lemma_find_from_budget(img: Seq<Seq<u8>>, v: PageView, key: Seq<u8>, b: nat, c: nat)
    requires
        find_from(img, v, key, b) is Found,
        b <= c,
    ensures
        find_from(img, v, key, c) == find_from(img, v, key, b),
{
    match v {
        PageView::Internal { keys, children, .. } => {
            let p = upper_view_pos(keys, key);
            if p != 0 && p - 1 < children.len() {
                lemma_find_budget(img, children[p - 1], key, b, c);
            }
        },
        _ => {},
    }
}

/// For well-formed entries, where an entry goes by its key array is where its key
/// goes among the entry keys.
pub proof fn lemma_upper_pos_view(s: Seq<KeyVal>, x: KeyVal)
    requires
        forall|i: int| 0 <= i < s.len() ==> (#[trigger] s[i]).wf(),
        x.wf(),
    ensures
        upper_pos(s, x) == upper_view_pos(entry_keys(kv_views(s)), x@.0),
    decreases s.len(),
{
    if s.len() > 0 {
        let t = s.drop_last();
        lemma_upper_pos_view(t, x);
        assert(entry_keys(kv_views(s)).drop_last() =~= entry_keys(kv_views(t)));
        assert(entry_keys(kv_views(s)).last() == s.last()@.0);
        assert(s.last().wf());
    }
}

/// An insertion of `key` below `ptr` is in order: the leaf it reaches has no entry
/// with the key, the separators along its path are ordered, and `key` lies within
/// the bounds.
pub open spec fn insert_pre(
    img: Seq<Seq<u8>>,
    ptr: u64,
    key: Seq<u8>,
    budget: nat,
    lo: Option<Seq<u8>>,
    hi: Option<Seq<u8>>,
) -> bool {
    &&& ins_walk(img, ptr, key, budget) == Lookup::Found(None)
    &&& ordered_walk(img, ptr, key, budget, lo, hi)
    &&& key.len() <= 12
    &&& key_within(key, lo, hi)
    &&& bound_fits(lo)
    &&& bound_fits(hi)
}

/// What an insertion of `kv` below `ptr` leaves, from `img0` (next free block
/// `nf0`) to `img1` (next free block `nf1`), with `res` the new right sibling of the
/// page at `ptr` if it split: every block on the old path and every new block
/// reads as a page; the page at `ptr` and the sibling have first keys in order and
/// within the bounds; and a lookup of the key from the page that should hold it,
/// in any image that reads the blocks below alike, finds `kv`.
pub open spec fn insert_outcome(
    img0: Seq<Seq<u8>>,
    nf0: u64,
    img1: Seq<Seq<u8>>,
    nf1: u64,
    ptr: u64,
    kv: (Seq<u8>, Seq<u8>),
    budget: nat,
    lo: Option<Seq<u8>>,
    hi: Option<Seq<u8>>,
    res: Option<PageView>,
) -> bool {
    let key = kv.0;
    let s = walk_blocks(img0, ptr, key, budget);
    let l = page_of(img1, ptr);
    &&& insert_outcome_at(img1, s, nf0, nf1, ptr, kv, budget, res)
    &&& forall|i: int| 0 <= i < s.len() ==> page_at(img1, #[trigger] s[i]) is Ok
    &&& forall|q: u64| nf0 <= q < nf1 ==> page_at(img1, q) is Ok
    &&& first_key_view(l) matches Some(kl) && kl.len() <= 12 && key_within(kl, lo, hi) && sorts_le(kl, key)
    &&& res matches Some(r) ==> {
        &&& valid_view(r)
        &&& first_key_view(r) matches Some(kr) && kr.len() <= 12 && key_within(kr, lo, hi)
            && sorts_le(first_key_view(l)->Some_0, kr)
    }
}

/// Writing a page at `p` leaves every other block that reads as a page as it was.
pub proof fn lemma_write_keeps(img: Seq<Seq<u8>>, p: u64, v: PageView, q: u64)
    requires
        image_ok(img),
        valid_view(v),
        encode_view(v).len() <= 4096,
        q != p,
        page_at(img, q) is Ok,
    ensures
        page_at(write_image(img, p, encode_view(v)), q) == page_at(img, q),
{
    lemma_write_then_read(img, p, v, q);
}

/// A lookup from a parent page whose separators send `key` to the child at `c` (or,
/// when the child split, to its new sibling at `f`) finds `kv`, in any image `w`
/// that reads the child and the sibling as `img1` left them and the blocks below
/// alike.
pub proof fn lemma_parent_finds(
    w: Seq<Seq<u8>>,
    img1: Seq<Seq<u8>>,
    s: Seq<u64>,
    nf0: u64,
    nf1: u64,
    c: u64,
    res: Option<PageView>,
    f: u64,
    kv: (Seq<u8>, Seq<u8>),
    b: nat,
    v: PageView,
)
    requires
        b >= 2,
        kv.0.len() <= 12,
        s.len() >= 1,
        s[0] == c,
        insert_outcome_at(img1, s, nf0, nf1, c, kv, (b - 1) as nat, res),
        page_at(w, c) == page_at(img1, c),
        reads_alike(w, img1, s.drop_first(), nf0, nf1),
        res matches Some(r) ==> page_at(w, f) == Ok::<PageView, DbErrorView>(r),
        res matches Some(r) ==> first_key_view(r) matches Some(kr) && kr.len() <= 12,
        v matches PageView::Internal { keys, children, .. } && ({
            let q = upper_view_pos(keys, kv.0);
            &&& q > 0
            &&& q - 1 < children.len()
            &&& match res {
                None => children[q - 1] == c,
                Some(r) => (sorts_lt(kv.0, first_key_view(r)->Some_0) ==> children[q - 1] == c)
                    && (sorts_le(first_key_view(r)->Some_0, kv.0) ==> children[q - 1] == f),
            }
        }),
    ensures
        find_from(w, v, kv.0, (b - 1) as nat) == Lookup::Found(Some(kv)),
{
    let key = kv.0;
    let l = page_of(img1, c);
    assert(reads_alike(w, img1, s.drop_first(), nf0, nf1));
    lemma_find_step(w, c, key, (b - 1) as nat);
    match res {
        None => {
            assert(find_from(w, l, key, (b - 2) as nat) == Lookup::Found(Some(kv)));
        },
        Some(r) => {
            let kr = first_key_view(r)->Some_0;
            lemma_sorts_total(key, kr);
            if sorts_lt(key, kr) {
                assert(find_from(w, l, key, (b - 2) as nat) == Lookup::Found(Some(kv)));
            } else {
                lemma_find_step(w, f, key, (b - 1) as nat);
                assert(find_from(w, r, key, (b - 2) as nat) == Lookup::Found(Some(kv)));
            }
        },
    }
}

/// The lookup part of `insert_outcome`, for a walk `s` from `ptr` given outright.
pub open spec fn insert_outcome_at(
    img1: Seq<Seq<u8>>,
    s: Seq<u64>,
    nf0: u64,
    nf1: u64,
    ptr: u64,
    kv: (Seq<u8>, Seq<u8>),
    budget: nat,
    res: Option<PageView>,
) -> bool {
    let key = kv.0;
    let l = page_of(img1, ptr);
    &&& page_at(img1, ptr) is Ok
    &&& match res {
        None => forall|w: Seq<Seq<u8>>|
            #[trigger] reads_alike(w, img1, s.drop_first(), nf0, nf1) ==> find_from(
                w,
                l,
                key,
                (budget - 1) as nat,
            ) == Lookup::Found(Some(kv)),
        Some(r) => {
            &&& first_key_view(r) is Some
            &&& forall|w: Seq<Seq<u8>>|
                #[trigger] reads_alike(w, img1, s.drop_first(), nf0, nf1) ==> (sorts_lt(key, first_key_view(r)->Some_0) ==> find_from(
                    w,
                    l,
                    key,
                    (budget - 1) as nat,
                ) == Lookup::Found(Some(kv))) && (sorts_le(first_key_view(r)->Some_0, key) ==> find_from(
                    w,
                    r,
                    key,
                    (budget - 1) as nat,
                ) == Lookup::Found(Some(kv)))
        },
    }
}

/// When the root split, the writes of the sibling at `nf1`, the old root's page at
/// `nf1 + 1` and the new root at 0 leave the blocks below the old root and the
/// blocks allocated below as they were.
pub proof fn lemma_root_split_reads(
    img1: Seq<Seq<u8>>,
    nf0: u64,
    nf1: u64,
    img2: Seq<Seq<u8>>,
    img3: Seq<Seq<u8>>,
    img4: Seq<Seq<u8>>,
    s: Seq<u64>,
    r: PageView,
    l: PageView,
    root: PageView,
)
    requires
        image_ok(img1),
        0 < nf0 <= nf1,
        nf1 + 2 <= u64::MAX,
        forall|i: int| 0 <= i < s.len() ==> (#[trigger] s[i]) < nf0,
        !s.contains(0),
        forall|i: int| 0 <= i < s.len() ==> page_at(img1, #[trigger] s[i]) is Ok,
        forall|q: u64| nf0 <= q < nf1 ==> page_at(img1, q) is Ok,
        valid_view(r),
        encode_view(r).len() <= 4096,
        valid_view(l),
        encode_view(l).len() <= 4096,
        valid_view(root),
        encode_view(root).len() <= 4096,
        img2 == write_image(img1, nf1, encode_view(r)),
        img3 == write_image(img2, (nf1 + 1) as u64, encode_view(l)),
        img4 == write_image(img3, 0, encode_view(root)),
    ensures
        reads_alike(img4, img1, s, nf0, nf1),
        page_at(img4, nf1) == Ok::<PageView, DbErrorView>(r),
        page_at(img4, (nf1 + 1) as u64) == Ok::<PageView, DbErrorView>(l),
        page_at(img4, 0) == Ok::<PageView, DbErrorView>(root),
        img4.len() >= nf1 + 2,
{
    let f1 = nf1;
    let f2 = (nf1 + 1) as u64;
    lemma_write_then_read(img1, f1, r, f1);
    lemma_write_then_read(img2, f2, l, f2);
    lemma_write_keeps(img2, f2, l, f1);
    lemma_write_then_read(img3, 0, root, 0);
    lemma_write_keeps(img3, 0, root, f1);
    lemma_write_keeps(img3, 0, root, f2);
    assert forall|i: int| 0 <= i < s.len() implies page_at(img4, #[trigger] s[i]) == page_at(img1, s[i]) by {
        let q = s[i];
        assert(q != 0) by {
            assert(s.contains(q));
        }
        lemma_write_keeps(img1, f1, r, q);
        lemma_write_keeps(img2, f2, l, q);
        lemma_write_keeps(img3, 0, root, q);
    }
    assert forall|q: u64| nf0 <= q < nf1 implies page_at(img4, q) == page_at(img1, q) by {
        lemma_write_keeps(img1, f1, r, q);
        lemma_write_keeps(img2, f2, l, q);
        lemma_write_keeps(img3, 0, root, q);
    }
    assert(img4.len() >= f2 + 1) by {
        assert(page_at(img4, f2) is Ok);
    }
}

/// When the root split: the old root's page moved to block `nf1 + 1`, its new
/// sibling sits at block `nf1`, and a new root at block 0 holds their first keys; a
/// lookup from block 0 finds the inserted pair.
pub proof fn lemma_root_split_finds(
    img1: Seq<Seq<u8>>,
    nf0: u64,
    nf1: u64,
    img4: Seq<Seq<u8>>,
    s: Seq<u64>,
    kv: (Seq<u8>, Seq<u8>),
    n0: nat,
    r: PageView,
    l: PageView,
    root: PageView,
)
    requires
        n0 >= 1,
        kv.0.len() <= 12,
        insert_outcome_at(img1, s, nf0, nf1, 0, kv, n0, Some(r)),
        l == page_of(img1, 0),
        first_key_view(l) matches Some(kl) && kl.len() <= 12 && sorts_le(kl, kv.0),
        first_key_view(r) matches Some(kr) && kr.len() <= 12 && sorts_le(first_key_view(l)->Some_0, kr),
        reads_alike(img4, img1, s.drop_first(), nf0, nf1),
        page_at(img4, nf1) == Ok::<PageView, DbErrorView>(r),
        page_at(img4, (nf1 + 1) as u64) == Ok::<PageView, DbErrorView>(l),
        page_at(img4, 0) == Ok::<PageView, DbErrorView>(root),
        img4.len() >= n0 + 2,
        root matches PageView::Internal { keys, children, .. } && keys == seq![
            first_key_view(l)->Some_0,
            first_key_view(r)->Some_0,
        ] && children == seq![(nf1 + 1) as u64, nf1],
    ensures
        find_walk(img4, 0, kv.0, img4.len()) == Lookup::Found(Some(kv)),
{
    let key = kv.0;
    let kl = first_key_view(l)->Some_0;
    let kr = first_key_view(r)->Some_0;
    let f1 = nf1;
    let f2 = (nf1 + 1) as u64;
    assert(reads_alike(img4, img1, s.drop_first(), nf0, nf1));
    lemma_sorts_total(key, kr);
    lemma_find_step(img4, 0, key, img4.len());
    let ks = seq![kl, kr];
    assert(keys_fit(ks));
    if sorts_lt(key, kr) {
        assert forall|i: int| 1 <= i < ks.len() implies sorts_lt(key, #[trigger] ks[i]) by {}
        lemma_upper_unique(ks, key, 1);
        lemma_find_step(img4, f2, key, (img4.len() - 1) as nat);
        lemma_find_from_budget(img4, l, key, (n0 - 1) as nat, (img4.len() - 2) as nat);
    } else {
        lemma_sorts_trans(kl, kr, key);
        lemma_upper_unique(ks, key, 2);
        lemma_find_step(img4, f1, key, (img4.len() - 1) as nat);
        lemma_find_from_budget(img4, r, key, (n0 - 1) as nat, (img4.len() - 2) as nat);
    }
}


/// What the preconditions of an insertion give at an internal page: the lookup
/// follows a child, and the insertion below it meets its own preconditions.
pub proof fn lemma_internal_pre(
    img: Seq<Seq<u8>>,
    ptr: u64,
    key: Seq<u8>,
    b: nat,
    lo: Option<Seq<u8>>,
    hi: Option<Seq<u8>>,
)
    requires
        insert_pre(img, ptr, key, b, lo, hi),
        page_at(img, ptr) matches Ok(PageView::Internal { .. }),
    ensures
        ({
            let v = page_of(img, ptr);
            let keys = v->Internal_keys;
            let children = v->Internal_children;
            let p = upper_view_pos(keys, key);
            let r = route(keys, key);
            &&& b >= 2
            &&& valid_view(v)
            &&& keys_fit(keys)
            &&& keys_sorted(keys)
            &&& keys_within(keys, lo, hi)
            &&& 0 <= p <= keys.len()
            &&& 0 <= r < keys.len()
            &&& r < children.len()
            &&& insert_pre(img, children[r], key, (b - 1) as nat, child_lo(keys, key, lo), child_hi(keys, key, hi))
            &&& walk_blocks(img, ptr, key, b) == seq![ptr] + walk_blocks(img, children[r], key, (b - 1) as nat)
            &&& p > 0 ==> sorts_le(keys[p - 1], key)
        }),
{
    let v = page_of(img, ptr);
    let keys = v->Internal_keys;
    let children = v->Internal_children;
    super::walk::lemma_page_at_valid(img, ptr);
    assert(keys_fit(keys)) by {
        assert forall|i: int| 0 <= i < keys.len() implies (#[trigger] keys[i]).len() <= 12 by {
            assert(keys[i].len() <= 12);
        }
    }
    lemma_upper_facts(keys, key);
    let p = upper_view_pos(keys, key);
    let r = route(keys, key);
    if b == 1 {
        assert(ins_walk(img, children[r], key, 0) is Failed);
    }
    if r + 1 < keys.len() {
        assert(sorts_lt(key, keys[r + 1]));
    }
}

/// The separators and children of a parent after an insertion below it: the
/// separator it followed replaced by the child's first key `kl`, and, when the child
/// split, the sibling's first key `kr` and block `f` right after it.
pub open spec fn parent_keys(keys: Seq<Seq<u8>>, key: Seq<u8>, kl: Seq<u8>, kr: Option<Seq<u8>>) -> Seq<Seq<u8>> {
    let k1 = keys.update(route(keys, key), kl);
    match kr {
        None => k1,
        Some(k) => k1.insert(upper_view_pos(k1, k), k),
    }
}

pub open spec fn parent_children(
    keys: Seq<Seq<u8>>,
    children: Seq<u64>,
    key: Seq<u8>,
    kl: Seq<u8>,
    kr: Option<Seq<u8>>,
    f: u64,
) -> Seq<u64> {
    let k1 = keys.update(route(keys, key), kl);
    match kr {
        None => children,
        Some(k) => children.insert(upper_view_pos(k1, k), f),
    }
}

/// The parent's separators stay sorted and within bounds; a lookup of `key` follows
/// the child at `c` or, when the child split and `kr` sorts at or before `key`, the
/// sibling at `f`; and the first separator sorts at or before `key`.
pub proof fn lemma_parent_keys(
    keys: Seq<Seq<u8>>,
    children: Seq<u64>,
    key: Seq<u8>,
    kl: Seq<u8>,
    kr: Option<Seq<u8>>,
    f: u64,
    lo: Option<Seq<u8>>,
    hi: Option<Seq<u8>>,
)
    requires
        keys_fit(keys),
        keys_sorted(keys),
        keys_within(keys, lo, hi),
        bound_fits(lo),
        bound_fits(hi),
        key.len() <= 12,
        key_within(key, lo, hi),
        keys.len() == children.len(),
        keys.len() > 0,
        kl.len() <= 12,
        key_within(kl, child_lo(keys, key, lo), child_hi(keys, key, hi)),
        sorts_le(kl, key),
        kr matches Some(k) ==> k.len() <= 12 && key_within(k, child_lo(keys, key, lo), child_hi(keys, key, hi))
            && sorts_le(kl, k),
    ensures
        ({
            let r = route(keys, key);
            let kf = parent_keys(keys, key, kl, kr);
            let cf = parent_children(keys, children, key, kl, kr, f);
            let q = upper_view_pos(kf, key);
            &&& keys_fit(kf)
            &&& keys_sorted(kf)
            &&& keys_within(kf, lo, hi)
            &&& kf.len() == cf.len()
            &&& kf.len() >= 1
            &&& 0 < q <= kf.len()
            &&& match kr {
                None => cf[q - 1] == children[r],
                Some(k) => (sorts_lt(key, k) ==> cf[q - 1] == children[r]) && (sorts_le(k, key)
                    ==> cf[q - 1] == f),
            }
        }),
{
    let r = route(keys, key);
    lemma_upper_facts(keys, key);
    lemma_parent_update(keys, key, kl, lo, hi);
    let k1 = keys.update(r, kl);
    match kr {
        None => {},
        Some(k) => {
            assert(upper_view_pos(k1, key) == r + 1);
            assert(k1[r] == kl);
            if r + 1 < k1.len() {
                assert(k1[r + 1] == keys[r + 1]);
            }
            lemma_parent_insert(k1, key, k, lo, hi);
            let cf = children.insert(r + 1, f);
            lemma_sorts_total(key, k);
            if sorts_lt(key, k) {
                assert(cf[r] == children[r]);
            }
        },
    }
}

/// Splitting a parent page at `h`: the halves hold the separators and children on
/// either side, a lookup from the half that `key` falls in goes where it went from
/// the whole page, and the first keys are in order.
pub proof fn lemma_parent_split(w: Seq<Seq<u8>>, v: PageView, vl: PageView, vr: PageView, key: Seq<u8>, h: int, b: nat)
    requires
        v matches PageView::Internal { keys, children, .. } && keys_fit(keys) && keys_sorted(keys)
            && keys.len() == children.len() && 0 < h < keys.len() && upper_view_pos(keys, key) > 0,
        key.len() <= 12,
        vl matches PageView::Internal { keys, children, .. } && keys == v->Internal_keys.take(h)
            && children == v->Internal_children.take(h),
        vr matches PageView::Internal { keys, children, .. } && keys == v->Internal_keys.skip(h)
            && children == v->Internal_children.skip(h),
    ensures
        sorts_lt(key, v->Internal_keys[h]) ==> find_from(w, vl, key, b) == find_from(w, v, key, b),
        sorts_le(v->Internal_keys[h], key) ==> find_from(w, vr, key, b) == find_from(w, v, key, b),
        sorts_le(v->Internal_keys[0], v->Internal_keys[h]),
        sorts_le(v->Internal_keys[0], key),
        first_key_view(vl) == Some(v->Internal_keys[0]),
        first_key_view(vr) == Some(v->Internal_keys[h]),
{
    let keys = v->Internal_keys;
    let children = v->Internal_children;
    lemma_internal_split(keys, key, h);
    let q = upper_view_pos(keys, key);
    lemma_upper_facts(keys, key);
    if sorts_lt(key, keys[h]) {
        assert(vl->Internal_children[q - 1] == children[q - 1]);
    }
    if sorts_le(keys[h], key) {
        assert(vr->Internal_children[q - h - 1] == children[q - 1]);
    }
    assert(vl->Internal_keys[0] == keys[0]);
    assert(vr->Internal_keys[0] == keys[h]);
}

/// After the child's insertion, a parent writes its sibling at `nf1` (when the
/// child split) and its own page at `ptr` (once, or twice when it split itself):
/// the blocks below and the blocks allocated below read as before.
pub proof fn lemma_parent_reads(
    img1: Seq<Seq<u8>>,
    nf0: u64,
    nf1: u64,
    rc: Option<PageView>,
    img_pre: Seq<Seq<u8>>,
    nf_final: u64,
    ptr: u64,
    v_full: PageView,
    img3: Seq<Seq<u8>>,
    vl: Option<PageView>,
    img_final: Seq<Seq<u8>>,
    s: Seq<u64>,
)
    requires
        image_ok(img1),
        ptr < nf0 <= nf1,
        nf1 < u64::MAX,
        !s.contains(ptr),
        forall|i: int| 0 <= i < s.len() ==> (#[trigger] s[i]) < nf0,
        forall|i: int| 0 <= i < s.len() ==> page_at(img1, #[trigger] s[i]) is Ok,
        forall|q: u64| nf0 <= q < nf1 ==> page_at(img1, q) is Ok,
        match rc {
            Some(r) => img_pre == write_image(img1, nf1, encode_view(r)) && nf_final == nf1 + 1
                && valid_view(r) && encode_view(r).len() <= 4096,
            None => img_pre == img1 && nf_final == nf1,
        },
        valid_view(v_full),
        encode_view(v_full).len() <= 4096,
        img3 == write_image(img_pre, ptr, encode_view(v_full)),
        match vl {
            Some(l) => valid_view(l) && encode_view(l).len() <= 4096 && img_final == write_image(
                img3,
                ptr,
                encode_view(l),
            ),
            None => img_final == img3,
        },
    ensures
        forall|i: int| 0 <= i < s.len() ==> page_at(img_final, #[trigger] s[i]) == page_at(img1, s[i]),
        forall|q: u64| nf0 <= q < nf1 ==> page_at(img_final, q) == page_at(img1, q),
        forall|q: u64|
            q != ptr && q != nf1 && page_at(img1, q) is Ok ==> #[trigger] page_at(img_final, q) == page_at(img1, q),
        rc matches Some(r) ==> page_at(img_final, nf1) == Ok::<PageView, DbErrorView>(r),
        page_at(img_final, ptr) == Ok::<PageView, DbErrorView>(
            match vl {
                Some(l) => l,
                None => v_full,
            },
        ),
{
    // each block kept is a full block of `img1` away from every write
    assert forall|q: u64| q != ptr && q != nf1 && page_at(img1, q) is Ok implies page_at(img_final, q) == page_at(img1, q) by {
        if let Some(r) = rc {
            lemma_write_keeps(img1, nf1, r, q);
        }
        lemma_write_keeps(img_pre, ptr, v_full, q);
        if let Some(l) = vl {
            lemma_write_keeps(img3, ptr, l, q);
        }
    }
    assert forall|i: int| 0 <= i < s.len() implies page_at(img_final, #[trigger] s[i]) == page_at(img1, s[i]) by {
        assert(s[i] != ptr) by {
            assert(s.contains(s[i]));
        }
    }
    if let Some(r) = rc {
        lemma_write_then_read(img1, nf1, r, nf1);
        lemma_write_keeps(img_pre, ptr, v_full, nf1);
        if let Some(l) = vl {
            lemma_write_keeps(img3, ptr, l, nf1);
        }
    }
    lemma_write_then_read(img_pre, ptr, v_full, ptr);
    if let Some(l) = vl {
        lemma_write_then_read(img3, ptr, l, ptr);
    }
}

/// `w` reads the blocks below the child as `img1` left them.
pub proof fn lemma_reads_below(
    img1: Seq<Seq<u8>>,
    nf0: u64,
    nf1: u64,
    img_final: Seq<Seq<u8>>,
    nf_final: u64,
    s_child: Seq<u64>,
    w: Seq<Seq<u8>>,
)
    requires
        s_child.len() >= 1,
        nf1 <= nf_final,
        forall|i: int| 0 <= i < s_child.len() ==> page_at(img_final, #[trigger] s_child[i]) == page_at(img1, s_child[i]),
        forall|q: u64| nf0 <= q < nf1 ==> page_at(img_final, q) == page_at(img1, q),
        reads_alike(w, img_final, s_child, nf0, nf_final),
    ensures
        reads_alike(w, img1, s_child.drop_first(), nf0, nf1),
        page_at(w, s_child[0]) == page_at(img1, s_child[0]),
{
    assert(page_at(w, s_child[0]) == page_at(img_final, s_child[0]));
    assert forall|i: int| 0 <= i < s_child.drop_first().len() implies page_at(w, #[trigger] s_child.drop_first()[i]) == page_at(img1, s_child.drop_first()[i]) by {
        assert(s_child.drop_first()[i] == s_child[i + 1]);
        assert(page_at(w, s_child[i + 1]) == page_at(img_final, s_child[i + 1]));
    }
}

/// The lookup part of the outcome at a parent: from any image that reads the
/// blocks below alike, a lookup from the parent's page finds `kv`.
pub proof fn lemma_parent_lookup(
    img1: Seq<Seq<u8>>,
    nf0: u64,
    nf1: u64,
    img_final: Seq<Seq<u8>>,
    nf_final: u64,
    s_child: Seq<u64>,
    c: u64,
    rc: Option<PageView>,
    kv: (Seq<u8>, Seq<u8>),
    b: nat,
    v_full: PageView,
    w: Seq<Seq<u8>>,
)
    requires
        b >= 2,
        kv.0.len() <= 12,
        s_child.len() >= 1,
        s_child[0] == c,
        nf0 <= nf1,
        nf1 <= nf_final,
        insert_outcome_at(img1, s_child, nf0, nf1, c, kv, (b - 1) as nat, rc),
        rc matches Some(r) ==> first_key_view(r) matches Some(kr) && kr.len() <= 12,
        forall|i: int| 0 <= i < s_child.len() ==> page_at(img_final, #[trigger] s_child[i]) == page_at(img1, s_child[i]),
        forall|q: u64| nf0 <= q < nf1 ==> page_at(img_final, q) == page_at(img1, q),
        rc matches Some(r) ==> nf1 < nf_final && page_at(img_final, nf1) == Ok::<PageView, DbErrorView>(r),
        reads_alike(w, img_final, s_child, nf0, nf_final),
        v_full matches PageView::Internal { keys, children, .. } && ({
            let q = upper_view_pos(keys, kv.0);
            &&& keys_fit(keys)
            &&& keys_sorted(keys)
            &&& keys.len() == children.len()
            &&& q > 0
            &&& q - 1 < children.len()
            &&& match rc {
                None => children[q - 1] == c,
                Some(r) => (sorts_lt(kv.0, first_key_view(r)->Some_0) ==> children[q - 1] == c)
                    && (sorts_le(first_key_view(r)->Some_0, kv.0) ==> children[q - 1] == nf1),
            }
        }),
    ensures
        find_from(w, v_full, kv.0, (b - 1) as nat) == Lookup::Found(Some(kv)),
{
    lemma_reads_below(img1, nf0, nf1, img_final, nf_final, s_child, w);
    if let Some(r) = rc {
        assert(page_at(w, nf1) == page_at(img_final, nf1));
    }
    lemma_parent_finds(w, img1, s_child, nf0, nf1, c, rc, nf1, kv, b, v_full);
}

/// What the preconditions at an internal page and the child's outcome give, in
/// short: the path below, where its blocks lie, and the first keys left below.
pub proof fn lemma_internal_child_facts(
    img0: Seq<Seq<u8>>,
    nf0: u64,
    img1: Seq<Seq<u8>>,
    nf1: u64,
    ptr: u64,
    kv: (Seq<u8>, Seq<u8>),
    b: nat,
    lo: Option<Seq<u8>>,
    hi: Option<Seq<u8>>,
    rc: Option<PageView>,
)
    requires
        insert_pre(img0, ptr, kv.0, b, lo, hi),
        page_at(img0, ptr) matches Ok(PageView::Internal { .. }),
        img0.len() <= nf0 <= nf1,
        ({
            let v0 = page_of(img0, ptr);
            let keys = v0->Internal_keys;
            let children = v0->Internal_children;
            let c = children[route(keys, kv.0)];
            insert_outcome(
                img0,
                nf0,
                img1,
                nf1,
                c,
                kv,
                (b - 1) as nat,
                child_lo(keys, kv.0, lo),
                child_hi(keys, kv.0, hi),
                rc,
            )
        }),
    ensures
        ({
            let key = kv.0;
            let v0 = page_of(img0, ptr);
            let keys = v0->Internal_keys;
            let children = v0->Internal_children;
            let c = children[route(keys, key)];
            let s = walk_blocks(img0, ptr, key, b);
            let s_child = walk_blocks(img0, c, key, (b - 1) as nat);
            let kl = first_key_view(page_of(img1, c))->Some_0;
            &&& b >= 2
            &&& valid_view(v0)
            &&& s == seq![ptr] + s_child
            &&& s_child.len() >= 1
            &&& s_child[0] == c
            &&& forall|i: int| 0 <= i < s_child.len() ==> (#[trigger] s_child[i]) < nf0
            &&& !s_child.contains(ptr)
            &&& ptr < nf0
            &&& forall|i: int| 0 <= i < s_child.len() ==> page_at(img1, #[trigger] s_child[i]) is Ok
            &&& forall|q: u64| nf0 <= q < nf1 ==> page_at(img1, q) is Ok
            &&& insert_outcome_at(img1, s_child, nf0, nf1, c, kv, (b - 1) as nat, rc)
            &&& keys_fit(keys)
            &&& keys_sorted(keys)
            &&& keys_within(keys, lo, hi)
            &&& bound_fits(lo)
            &&& bound_fits(hi)
            &&& key.len() <= 12
            &&& key_within(key, lo, hi)
            &&& 0 < keys.len()
            &&& keys.len() == children.len()
            &&& kl.len() <= 12
            &&& key_within(kl, child_lo(keys, key, lo), child_hi(keys, key, hi))
            &&& sorts_le(kl, key)
            &&& rc matches Some(r) ==> valid_view(r)
            &&& rc matches Some(r) ==> (first_key_view(r) matches Some(kr) && kr.len() <= 12
                && key_within(kr, child_lo(keys, key, lo), child_hi(keys, key, hi)) && sorts_le(kl, kr))
        }),
{
    let key = kv.0;
    let v0 = page_of(img0, ptr);
    let keys = v0->Internal_keys;
    let children = v0->Internal_children;
    let c = children[route(keys, key)];
    lemma_internal_pre(img0, ptr, key, b, lo, hi);
    let s = walk_blocks(img0, ptr, key, b);
    let s_child = walk_blocks(img0, c, key, (b - 1) as nat);
    lemma_walk_no_return(img0, ptr, key, b);
    lemma_walk_chain(img0, ptr, key, b);
    assert(s.drop_first() =~= s_child);
    assert forall|i: int| 0 <= i < s_child.len() implies (#[trigger] s_child[i]) < nf0 by {
        assert(s_child[i] == s[i + 1]);
        assert(page_at(img0, s[i + 1]) is Ok);
    }
    assert(page_at(img0, s[0]) is Ok);
    lemma_walk_chain(img0, c, key, (b - 1) as nat);
}

/// The outcome at a parent, from the short facts: the child's outcome, where the
/// path lies, the parent's new separators and children, and its writes.
#[verifier::rlimit(100)]
pub proof fn lemma_internal_assemble(
    img0: Seq<Seq<u8>>,
    nf0: u64,
    img1: Seq<Seq<u8>>,
    nf1: u64,
    img_pre: Seq<Seq<u8>>,
    nf_final: u64,
    img3: Seq<Seq<u8>>,
    img_final: Seq<Seq<u8>>,
    ptr: u64,
    kv: (Seq<u8>, Seq<u8>),
    b: nat,
    lo: Option<Seq<u8>>,
    hi: Option<Seq<u8>>,
    rc: Option<PageView>,
    keys: Seq<Seq<u8>>,
    children: Seq<u64>,
    s_child: Seq<u64>,
    v_full: PageView,
    vl: Option<PageView>,
    vr: Option<PageView>,
    h: int,
)
    requires
        b >= 2,
        image_ok(img1),
        walk_blocks(img0, ptr, kv.0, b) == seq![ptr] + s_child,
        s_child.len() >= 1,
        s_child[0] == children[route(keys, kv.0)],
        forall|i: int| 0 <= i < s_child.len() ==> (#[trigger] s_child[i]) < nf0,
        !s_child.contains(ptr),
        ptr < nf0 <= nf1,
        nf1 < u64::MAX,
        forall|i: int| 0 <= i < s_child.len() ==> page_at(img1, #[trigger] s_child[i]) is Ok,
        forall|q: u64| nf0 <= q < nf1 ==> page_at(img1, q) is Ok,
        insert_outcome_at(img1, s_child, nf0, nf1, s_child[0], kv, (b - 1) as nat, rc),
        keys_fit(keys),
        keys_sorted(keys),
        keys_within(keys, lo, hi),
        bound_fits(lo),
        bound_fits(hi),
        kv.0.len() <= 12,
        key_within(kv.0, lo, hi),
        0 < keys.len(),
        keys.len() == children.len(),
        ({
            let kl = first_key_view(page_of(img1, s_child[0]))->Some_0;
            &&& kl.len() <= 12
            &&& key_within(kl, child_lo(keys, kv.0, lo), child_hi(keys, kv.0, hi))
            &&& sorts_le(kl, kv.0)
            &&& rc matches Some(r) ==> valid_view(r)
            &&& rc matches Some(r) ==> (first_key_view(r) matches Some(kr) && kr.len() <= 12
                && key_within(kr, child_lo(keys, kv.0, lo), child_hi(keys, kv.0, hi)) && sorts_le(kl, kr))
            &&& v_full matches PageView::Internal { keys: kf, children: cf, .. } && kf == parent_keys(
                keys,
                kv.0,
                kl,
                match rc {
                    Some(r) => Some(first_key_view(r)->Some_0),
                    None => None,
                },
            ) && cf == parent_children(
                keys,
                children,
                kv.0,
                kl,
                match rc {
                    Some(r) => Some(first_key_view(r)->Some_0),
                    None => None,
                },
                nf1,
            )
        }),
        match rc {
            Some(r) => img_pre == write_image(img1, nf1, encode_view(r)) && nf_final == nf1 + 1
                && encode_view(r).len() <= 4096,
            None => img_pre == img1 && nf_final == nf1,
        },
        valid_view(v_full),
        encode_view(v_full).len() <= 4096,
        img3 == write_image(img_pre, ptr, encode_view(v_full)),
        vl is Some <==> vr is Some,
        match vl {
            Some(l) => valid_view(l) && encode_view(l).len() <= 4096 && img_final == write_image(
                img3,
                ptr,
                encode_view(l),
            ),
            None => img_final == img3,
        },
        vl is Some ==> 0 < h < v_full->Internal_keys.len(),
        vl matches Some(l) ==> l matches PageView::Internal { keys, children, .. } && keys
            == v_full->Internal_keys.take(h) && children == v_full->Internal_children.take(h),
        vr matches Some(r) ==> valid_view(r),
        vr matches Some(r) ==> r matches PageView::Internal { keys, children, .. } && keys
            == v_full->Internal_keys.skip(h) && children == v_full->Internal_children.skip(h),
    ensures
        insert_outcome(img0, nf0, img_final, nf_final, ptr, kv, b, lo, hi, vr),
{
    let key = kv.0;
    let s = walk_blocks(img0, ptr, key, b);
    let c = s_child[0];
    let l1 = page_of(img1, c);
    let kl = first_key_view(l1)->Some_0;
    let kr = match rc {
        Some(r) => Some(first_key_view(r)->Some_0),
        None => None,
    };
    assert(s.drop_first() =~= s_child);
    lemma_parent_keys(keys, children, key, kl, kr, nf1, lo, hi);
    lemma_parent_reads(img1, nf0, nf1, rc, img_pre, nf_final, ptr, v_full, img3, vl, img_final, s_child);
    let kf = v_full->Internal_keys;
    lemma_upper_sorted(kf, key);
    let l = match vl {
        Some(x) => x,
        None => v_full,
    };
    if let (Some(x), Some(y)) = (vl, vr) {
        lemma_parent_split(img_final, v_full, x, y, key, h, (b - 1) as nat);
    }
    assert(first_key_view(l) == Some(kf[0]));
    assert forall|w: Seq<Seq<u8>>| #[trigger] reads_alike(w, img_final, s.drop_first(), nf0, nf_final) implies (match vr {
        None => find_from(w, l, key, (b - 1) as nat) == Lookup::Found(Some(kv)),
        Some(r) => (sorts_lt(key, first_key_view(r)->Some_0) ==> find_from(w, l, key, (b - 1) as nat)
            == Lookup::Found(Some(kv))) && (sorts_le(first_key_view(r)->Some_0, key) ==> find_from(
            w,
            r,
            key,
            (b - 1) as nat,
        ) == Lookup::Found(Some(kv))),
    }) by {
        lemma_parent_lookup(img1, nf0, nf1, img_final, nf_final, s_child, c, rc, kv, b, v_full, w);
        if let (Some(x), Some(y)) = (vl, vr) {
            lemma_parent_split(w, v_full, x, y, key, h, (b - 1) as nat);
        }
    }
    assert forall|i: int| 0 <= i < s.len() implies page_at(img_final, #[trigger] s[i]) is Ok by {
        if i > 0 {
            assert(s[i] == s_child[i - 1]);
        }
    }
    assert forall|q2: u64| nf0 <= q2 < nf_final implies page_at(img_final, q2) is Ok by {
        if q2 < nf1 {
            assert(page_at(img_final, q2) == page_at(img1, q2));
        }
    }
}

} // verus!
