//! What an insertion leaves of the lookups of the other keys: the blocks it does
//! not write, and the lookups of keys that the tree already holds.

use vstd::prelude::*;
use super::page::leaf::pad12;
use super::disk::{PageView, encode_view, first_key_view, image_ok, page_at, valid_view, write_image};
use super::walk::{Lookup, find_walk, first_kv_index, leaf_lookup, page_of, upper_view_pos,
    lemma_first_kv_index, lemma_first_kv_index_is, lemma_upper_view_pos_bound};
use crate::error::DbErrorView;
use super::grow::{bound_fits, child_hi, child_lo, entry_keys, find_from, insert_pre,
    key_within, keys_fit, keys_sorted, keys_within, page_keys, parent_children, parent_keys,
    reads_alike, route, sorts_le, sorts_lt, walk_blocks, lemma_parent_keys,
    lemma_parent_reads, lemma_parent_update, lemma_reads_below, lemma_sorts_total,
    lemma_sorts_trans, lemma_upper_facts, lemma_upper_unique, lemma_walk_no_return};

verus! {

/// No block of `t` is a block of `s`.
pub open spec fn apart(t: Seq<u64>, s: Seq<u64>) -> bool {
    forall|i: int| 0 <= i < t.len() ==> !s.contains(#[trigger] t[i])
}

/// The walks of `key` and `other` from `ptr` read the same blocks while they go
/// the same way, and once they part, no block that the rest of `other`'s walk reads
/// is read by the walk of `key`.
pub open spec fn walks_part(img: Seq<Seq<u8>>, ptr: u64, key: Seq<u8>, other: Seq<u8>, budget: nat) -> bool
    decreases budget,
{
    budget > 0 && match page_at(img, ptr) {
        Ok(PageView::Internal { keys, children, .. }) => {
            let r = route(keys, key);
            let r2 = route(keys, other);
            if r == r2 {
                keys.len() > 0 && r < children.len() ==> walks_part(
                    img,
                    children[r],
                    key,
                    other,
                    (budget - 1) as nat,
                )
            } else {
                r2 < children.len() ==> apart(
                    walk_blocks(img, children[r2], other, (budget - 1) as nat),
                    walk_blocks(img, ptr, key, budget),
                )
            }
        },
        _ => true,
    }
}

/// The leaf that the lookup of `key` from `ptr` reaches holds at most one entry
/// whose key sorts equal to `key`.
pub open spec fn sorts_once(img: Seq<Seq<u8>>, ptr: u64, key: Seq<u8>, budget: nat) -> bool
    decreases budget,
{
    budget > 0 && match page_at(img, ptr) {
        Ok(PageView::Internal { keys, children, .. }) => {
            let p = upper_view_pos(keys, key);
            key.len() <= 12 && p > 0 && p - 1 < children.len() ==> sorts_once(
                img,
                children[p - 1],
                key,
                (budget - 1) as nat,
            )
        },
        Ok(PageView::Leaf { kvs, .. }) => once_in(kvs, key),
        Err(_) => true,
    }
}

/// At most one entry of `kvs` has a key that sorts equal to `key`.
pub open spec fn once_in(kvs: Seq<(Seq<u8>, Seq<u8>)>, key: Seq<u8>) -> bool {
    forall|i: int, j: int|
        0 <= i < j < kvs.len() ==> !(pad12(#[trigger] kvs[i].0) == pad12(key) && pad12(
            #[trigger] kvs[j].0,
        ) == pad12(key))
}

/// A key `other` whose lookup from `ptr` an insertion of `key` below `ptr` keeps:
/// the lookup finds an entry, `other` sorts apart from `key` and within the bounds,
/// the two walks part cleanly, and the leaf that `other` reaches holds no second
/// entry that sorts equal to it.
pub open spec fn frame_pre(
    img: Seq<Seq<u8>>,
    ptr: u64,
    key: Seq<u8>,
    other: Seq<u8>,
    budget: nat,
    lo: Option<Seq<u8>>,
    hi: Option<Seq<u8>>,
) -> bool {
    &&& find_walk(img, ptr, other, budget) matches Lookup::Found(Some(_))
    &&& other.len() <= 12
    &&& key_within(other, lo, hi)
    &&& pad12(other) != pad12(key)
    &&& walks_part(img, ptr, key, other, budget)
    &&& sorts_once(img, ptr, other, budget)
}

/// `w` reads every block of the lookup of `other` from `ptr` in `img` that is not in
/// `s` as `img` does.
pub open spec fn untouched_for(
    w: Seq<Seq<u8>>,
    img: Seq<Seq<u8>>,
    ptr: u64,
    other: Seq<u8>,
    budget: nat,
    s: Seq<u64>,
) -> bool {
    let t = walk_blocks(img, ptr, other, budget);
    forall|i: int| 0 <= i < t.len() && !s.contains(t[i]) ==> page_at(w, #[trigger] t[i]) == page_at(img, t[i])
}

/// From the page `l` left at a block, or from its new sibling `res` when `other`
/// sorts at or after the sibling's first key, a lookup of `other` finds `e`; and
/// `l`'s first key sorts at or before `other` when the lookup goes through `l`.
pub open spec fn frame_found(
    w: Seq<Seq<u8>>,
    l: PageView,
    res: Option<PageView>,
    other: Seq<u8>,
    budget: nat,
    e: Lookup,
) -> bool {
    match res {
        None => find_from(w, l, other, budget) == e && sorts_le(first_key_view(l)->Some_0, other),
        Some(r) => {
            &&& sorts_lt(other, first_key_view(r)->Some_0) ==> find_from(w, l, other, budget) == e
                && sorts_le(first_key_view(l)->Some_0, other)
            &&& sorts_le(first_key_view(r)->Some_0, other) ==> find_from(w, r, other, budget) == e
        },
    }
}

/// After an insertion of `key` below `ptr` from `img0` to `img1`, along the path `s`:
/// for every key that the insertion keeps, a lookup from the page left at `ptr` (or
/// its new sibling) finds what it found before, in any image that reads the blocks
/// below alike and the rest of that key's path as `img0` did.
pub open spec fn frame_lookup_at(
    img0: Seq<Seq<u8>>,
    img1: Seq<Seq<u8>>,
    s: Seq<u64>,
    nf0: u64,
    nf1: u64,
    ptr: u64,
    key: Seq<u8>,
    budget: nat,
    lo: Option<Seq<u8>>,
    hi: Option<Seq<u8>>,
    res: Option<PageView>,
) -> bool {
    forall|other: Seq<u8>, w: Seq<Seq<u8>>|
        #![trigger frame_pre(img0, ptr, key, other, budget, lo, hi), reads_alike(w, img1, s.drop_first(), nf0, nf1)]
        frame_pre(img0, ptr, key, other, budget, lo, hi) && reads_alike(w, img1, s.drop_first(), nf0, nf1)
            && untouched_for(w, img0, ptr, other, budget, s) ==> frame_found(
            w,
            page_of(img1, ptr),
            res,
            other,
            (budget - 1) as nat,
            find_walk(img0, ptr, other, budget),
        )
}

/// What an insertion of `key` below `ptr` leaves of the rest: every block before
/// `nf0` off the path of `key` that read as a page reads as before, and the lookups
/// of the keys it keeps find what they found.
pub open spec fn frame_outcome(
    img0: Seq<Seq<u8>>,
    nf0: u64,
    img1: Seq<Seq<u8>>,
    nf1: u64,
    ptr: u64,
    key: Seq<u8>,
    budget: nat,
    lo: Option<Seq<u8>>,
    hi: Option<Seq<u8>>,
    res: Option<PageView>,
) -> bool {
    let s = walk_blocks(img0, ptr, key, budget);
    &&& forall|q: u64|
        q < nf0 && !s.contains(q) && page_at(img0, q) is Ok ==> #[trigger] page_at(img1, q) == page_at(img0, q)
    &&& frame_lookup_at(img0, img1, s, nf0, nf1, ptr, key, budget, lo, hi, res)
}

/// A lookup reads only the blocks of its path: an image that reads them alike
/// finds the same.
pub proof fn lemma_walk_agree(w: Seq<Seq<u8>>, img: Seq<Seq<u8>>, ptr: u64, key: Seq<u8>, budget: nat)
    requires
        forall|i: int|
            0 <= i < walk_blocks(img, ptr, key, budget).len() ==> page_at(
                w,
                #[trigger] walk_blocks(img, ptr, key, budget)[i],
            ) == page_at(img, walk_blocks(img, ptr, key, budget)[i]),
    ensures
        find_walk(w, ptr, key, budget) == find_walk(img, ptr, key, budget),
    decreases budget,
{
    if budget > 0 {
        let s = walk_blocks(img, ptr, key, budget);
        assert(s[0] == ptr);
        assert(page_at(w, ptr) == page_at(img, ptr));
        match page_at(img, ptr) {
            Ok(PageView::Internal { keys, children, .. }) => {
                let p = upper_view_pos(keys, key);
                lemma_upper_view_pos_bound(keys, key);
                if key.len() <= 12 && p > 0 && p - 1 < children.len() {
                    let c = children[p - 1];
                    let t = walk_blocks(img, c, key, (budget - 1) as nat);
                    assert forall|i: int| 0 <= i < t.len() implies page_at(w, #[trigger] t[i]) == page_at(img, t[i]) by {
                        assert(s[i + 1] == t[i]);
                    }
                    lemma_walk_agree(w, img, c, key, (budget - 1) as nat);
                }
            },
            Ok(PageView::Leaf { .. }) => {
                assert(find_walk(w, ptr, key, budget) == find_walk(img, ptr, key, budget));
            },
            Err(e) => {
                assert(find_walk(w, ptr, key, budget) == find_walk(img, ptr, key, budget));
            },
        }
    }
}

/// A leaf that takes a new entry for `key` keeps what the search for `other` finds,
/// in the whole leaf and in the half of a split that `other` sorts into; the leaf's
/// first key sorts at or before `other`.
pub proof fn lemma_leaf_other(
    kvs: Seq<(Seq<u8>, Seq<u8>)>,
    key: Seq<u8>,
    val: Seq<u8>,
    other: Seq<u8>,
    h: int,
)
    requires
        keys_fit(entry_keys(kvs)),
        keys_sorted(entry_keys(kvs)),
        key.len() <= 12,
        other.len() <= 12,
        pad12(other) != pad12(key),
        first_kv_index(kvs, key) is None,
        first_kv_index(kvs, other) is Some,
        once_in(kvs, other),
        0 <= h,
    ensures
        ({
            let u = upper_view_pos(entry_keys(kvs), key);
            let n = kvs.insert(u, (key, val));
            &&& leaf_lookup(n, other) == leaf_lookup(kvs, other)
            &&& sorts_le(n[0].0, other)
            &&& 0 < h < n.len() && sorts_lt(other, n[h].0) ==> leaf_lookup(n.take(h), other)
                == leaf_lookup(kvs, other) && sorts_le(n.take(h)[0].0, other)
            &&& 0 < h < n.len() && sorts_le(n[h].0, other) ==> leaf_lookup(n.skip(h), other)
                == leaf_lookup(kvs, other)
        }),
{
    let ks = entry_keys(kvs);
    let u = upper_view_pos(ks, key);
    let n = kvs.insert(u, (key, val));
    super::grow::lemma_leaf_insert(kvs, key, val, None, None);
    let nk = entry_keys(n);
    lemma_first_kv_index(kvs, other);
    let j = first_kv_index(kvs, other)->Some_0;
    // the position of `other`'s entry in `n`
    let jj = if j < u { j } else { j + 1 };
    assert(n[jj] == kvs[j]);
    assert(other != key) by {
        if other == key {
            assert(pad12(other) == pad12(key));
        }
    }
    assert forall|m: int| 0 <= m < jj implies (#[trigger] n[m]).0 != other by {
        if m < u {
            assert(n[m] == kvs[m]);
        } else if m > u {
            assert(n[m] == kvs[m - 1]);
        }
    }
    lemma_first_kv_index_is(n, other, jj);
    // no entry of `n` but the one at `jj` sorts equal to `other`
    assert forall|m: int| 0 <= m < n.len() && m != jj implies pad12(#[trigger] n[m].0) != pad12(other) by {
        if m < u {
            assert(n[m] == kvs[m]);
            if m < j {
                assert(!(pad12(kvs[m].0) == pad12(other) && pad12(kvs[j].0) == pad12(other)));
            } else {
                assert(!(pad12(kvs[j].0) == pad12(other) && pad12(kvs[m].0) == pad12(other)));
            }
        } else if m > u {
            assert(n[m] == kvs[m - 1]);
            if m - 1 < j {
                assert(!(pad12(kvs[m - 1].0) == pad12(other) && pad12(kvs[j].0) == pad12(other)));
            } else {
                assert(!(pad12(kvs[j].0) == pad12(other) && pad12(kvs[m - 1].0) == pad12(other)));
            }
        }
    }
    assert(nk[jj] == other);
    assert(nk[0] == n[0].0);
    if jj > 0 {
        assert(sorts_le(nk[0], nk[jj]));
    } else {
        lemma_sorts_total(other, other);
    }
    if 0 < h < n.len() {
        assert(nk[h] == n[h].0);
        lemma_sorts_total(other, n[h].0);
        if sorts_lt(other, n[h].0) {
            if jj >= h {
                if jj > h {
                    assert(sorts_le(nk[h], nk[jj]));
                } else {
                    lemma_sorts_total(other, other);
                }
            }
            let a = n.take(h);
            assert forall|m: int| 0 <= m < jj implies (#[trigger] a[m]).0 != other by {
                assert(a[m] == n[m]);
            }
            lemma_first_kv_index_is(a, other, jj);
            assert(a[0] == n[0]);
        }
        if sorts_le(n[h].0, other) {
            if jj < h {
                assert(sorts_le(nk[jj], nk[h]));
                lemma_sorts_total(n[h].0, other);
                assert(pad12(n[h].0) == pad12(other));
            }
            let b = n.skip(h);
            assert(b[jj - h] == n[jj]);
            assert forall|m: int| 0 <= m < jj - h implies (#[trigger] b[m]).0 != other by {
                assert(b[m] == n[m + h]);
            }
            lemma_first_kv_index_is(b, other, jj - h);
        }
    }
}

/// The frame of an insertion into the leaf at `ptr`: the leaf left there holds the
/// old entries with the new one at its place (`res` is `None`), or the first `h` of
/// them, with the rest in the new sibling `res`; no other block changed.
pub proof fn lemma_leaf_frame(
    img0: Seq<Seq<u8>>,
    nf0: u64,
    img1: Seq<Seq<u8>>,
    ptr: u64,
    key: Seq<u8>,
    val: Seq<u8>,
    b: nat,
    lo: Option<Seq<u8>>,
    hi: Option<Seq<u8>>,
    l: PageView,
    res: Option<PageView>,
    h: int,
)
    requires
        insert_pre(img0, ptr, key, b, lo, hi),
        page_at(img0, ptr) matches Ok(PageView::Leaf { .. }),
        forall|q: u64| q != ptr && page_at(img0, q) is Ok ==> #[trigger] page_at(img1, q) == page_at(img0, q),
        page_at(img1, ptr) == Ok::<PageView, DbErrorView>(l),
        ({
            let kvs = page_of(img0, ptr)->Leaf_kvs;
            let n = kvs.insert(upper_view_pos(entry_keys(kvs), key), (key, val));
            match res {
                None => l is Leaf && l->Leaf_kvs == n,
                Some(r) => 0 < h < n.len() && l is Leaf && l->Leaf_kvs == n.take(h) && r is Leaf
                    && r->Leaf_kvs == n.skip(h),
            }
        }),
    ensures
        frame_outcome(img0, nf0, img1, nf0, ptr, key, b, lo, hi, res),
{
    let kvs = page_of(img0, ptr)->Leaf_kvs;
    let u = upper_view_pos(entry_keys(kvs), key);
    let n = kvs.insert(u, (key, val));
    let s = walk_blocks(img0, ptr, key, b);
    assert(s =~= seq![ptr]);
    super::walk::lemma_page_at_valid(img0, ptr);
    assert(page_keys(page_of(img0, ptr)) =~= entry_keys(kvs));
    assert(keys_fit(entry_keys(kvs))) by {
        assert forall|i: int| 0 <= i < entry_keys(kvs).len() implies (#[trigger] entry_keys(kvs)[i]).len() <= 12 by {
            assert(kvs[i].0.len() <= 12);
        }
    }
    assert forall|q: u64| q < nf0 && !s.contains(q) && page_at(img0, q) is Ok implies #[trigger] page_at(img1, q) == page_at(img0, q) by {
        assert(s[0] == ptr);
    }
    assert forall|other: Seq<u8>, w: Seq<Seq<u8>>|
        #![trigger frame_pre(img0, ptr, key, other, b, lo, hi), reads_alike(w, img1, s.drop_first(), nf0, nf0)]
        frame_pre(img0, ptr, key, other, b, lo, hi) && reads_alike(w, img1, s.drop_first(), nf0, nf0)
            && untouched_for(w, img0, ptr, other, b, s) implies frame_found(
            w,
            page_of(img1, ptr),
            res,
            other,
            (b - 1) as nat,
            find_walk(img0, ptr, other, b),
        ) by {
        assert(find_walk(img0, ptr, other, b) == Lookup::Found(leaf_lookup(kvs, other)));
        assert(once_in(kvs, other));
        match res {
            None => lemma_leaf_other(kvs, key, val, other, 0),
            Some(r) => {
                lemma_leaf_other(kvs, key, val, other, h);
                assert(n.skip(h)[0] == n[h]);
            },
        }
    }
}

/// A lookup of `other` that goes to another child than `key`'s goes to that same
/// child after the parent's update: the separator `key` followed replaced by `kl`
/// and, when the child split, `kr` with the sibling's block after it.
pub proof fn lemma_parent_other(
    keys: Seq<Seq<u8>>,
    children: Seq<u64>,
    key: Seq<u8>,
    other: Seq<u8>,
    kl: Seq<u8>,
    kr: Option<Seq<u8>>,
    f: u64,
    lo: Option<Seq<u8>>,
    hi: Option<Seq<u8>>,
)
    requires
        keys_fit(keys),
        keys_sorted(keys),
        keys.len() == children.len(),
        key.len() <= 12,
        other.len() <= 12,
        0 < keys.len(),
        0 < upper_view_pos(keys, other) <= keys.len(),
        route(keys, other) != route(keys, key),
        kl.len() <= 12,
        key_within(kl, child_lo(keys, key, lo), child_hi(keys, key, hi)),
        kr matches Some(k) ==> k.len() <= 12 && key_within(k, child_lo(keys, key, lo), child_hi(keys, key, hi))
            && sorts_le(kl, k),
    ensures
        ({
            let kf = parent_keys(keys, key, kl, kr);
            let cf = parent_children(keys, children, key, kl, kr, f);
            let q = upper_view_pos(kf, other);
            &&& 0 < q <= kf.len()
            &&& kf.len() == cf.len()
            &&& cf[q - 1] == children[upper_view_pos(keys, other) - 1]
        }),
{
    let p = route(keys, key) + 1;
    let p2 = upper_view_pos(keys, other);
    lemma_upper_facts(keys, key);
    lemma_upper_facts(keys, other);
    if p2 < p {
        assert(upper_view_pos(keys, key) == p);
    }
    let k1 = keys.update(p - 1, kl);
    assert(keys_fit(k1)) by {
        assert forall|i: int| 0 <= i < k1.len() implies (#[trigger] k1[i]).len() <= 12 by {
            if i != p - 1 {
                assert(k1[i] == keys[i]);
            }
        }
    }
    // `other` goes to the same place among `k1`
    assert(k1[p2 - 1] == keys[p2 - 1]);
    assert forall|i: int| p2 <= i < k1.len() implies sorts_lt(other, #[trigger] k1[i]) by {
        if i == p - 1 {
            assert(sorts_lt(other, keys[p - 1]));
            lemma_sorts_trans(other, keys[p - 1], kl);
        } else {
            assert(k1[i] == keys[i]);
        }
    }
    lemma_upper_unique(k1, other, p2);
    match kr {
        None => {},
        Some(k) => {
            // `k` goes right after the separator that was replaced
            assert(k1[p - 1] == kl);
            assert forall|i: int| p <= i < k1.len() implies sorts_lt(k, #[trigger] k1[i]) by {
                assert(k1[i] == keys[i]);
                assert(sorts_lt(k, keys[p]));
                if i > p {
                    assert(sorts_le(keys[p], keys[i]));
                    lemma_sorts_trans(k, keys[p], keys[i]);
                }
            }
            lemma_upper_unique(k1, k, p);
            let kf = k1.insert(p, k);
            let cf = children.insert(p, f);
            assert(keys_fit(kf)) by {
                assert forall|i: int| 0 <= i < kf.len() implies (#[trigger] kf[i]).len() <= 12 by {
                    if i < p {
                        assert(kf[i] == k1[i]);
                    } else if i > p {
                        assert(kf[i] == k1[i - 1]);
                    }
                }
            }
            if p2 < p {
                assert(kf[p2 - 1] == k1[p2 - 1]);
                assert forall|i: int| p2 <= i < kf.len() implies sorts_lt(other, #[trigger] kf[i]) by {
                    if i < p {
                        assert(kf[i] == k1[i]);
                    } else if i > p {
                        assert(kf[i] == k1[i - 1]);
                    } else {
                        assert(sorts_lt(other, k1[p - 1]));
                        lemma_sorts_trans(other, kl, k);
                    }
                }
                lemma_upper_unique(kf, other, p2);
                assert(cf[p2 - 1] == children[p2 - 1]);
            } else {
                assert(kf[p2] == k1[p2 - 1]);
                assert forall|i: int| p2 + 1 <= i < kf.len() implies sorts_lt(other, #[trigger] kf[i]) by {
                    assert(kf[i] == k1[i - 1]);
                }
                lemma_upper_unique(kf, other, p2 + 1);
                assert(cf[p2] == children[p2 - 1]);
            }
        },
    }
}

/// Where `other`'s lookup goes to the same child as `key`'s, the insertion below
/// that child keeps `other` as well, within the child's bounds.
pub proof fn lemma_frame_pre_child(
    img: Seq<Seq<u8>>,
    ptr: u64,
    key: Seq<u8>,
    other: Seq<u8>,
    b: nat,
    lo: Option<Seq<u8>>,
    hi: Option<Seq<u8>>,
)
    requires
        frame_pre(img, ptr, key, other, b, lo, hi),
        insert_pre(img, ptr, key, b, lo, hi),
        page_at(img, ptr) matches Ok(PageView::Internal { keys, .. }) && route(keys, other) == route(keys, key),
    ensures
        ({
            let keys = page_of(img, ptr)->Internal_keys;
            let children = page_of(img, ptr)->Internal_children;
            let c = children[route(keys, key)];
            &&& frame_pre(img, c, key, other, (b - 1) as nat, child_lo(keys, key, lo), child_hi(keys, key, hi))
            &&& find_walk(img, ptr, other, b) == find_walk(img, c, other, (b - 1) as nat)
            &&& walk_blocks(img, ptr, other, b) == seq![ptr] + walk_blocks(img, c, other, (b - 1) as nat)
        }),
{
    let keys = page_of(img, ptr)->Internal_keys;
    super::grow::lemma_internal_pre(img, ptr, key, b, lo, hi);
    lemma_upper_facts(keys, other);
}

/// The state at a parent after the insertion below it: the path below, the blocks
/// that still read as `img1` left them, the first keys left below, and the
/// parent's new separators and children.
pub open spec fn parent_state(
    img0: Seq<Seq<u8>>,
    nf0: u64,
    img1: Seq<Seq<u8>>,
    nf1: u64,
    img_final: Seq<Seq<u8>>,
    nf_final: u64,
    ptr: u64,
    key: Seq<u8>,
    b: nat,
    lo: Option<Seq<u8>>,
    hi: Option<Seq<u8>>,
    rc: Option<PageView>,
    v_full: PageView,
) -> bool {
    let keys = page_of(img0, ptr)->Internal_keys;
    let children = page_of(img0, ptr)->Internal_children;
    let c = children[route(keys, key)];
    let s_child = walk_blocks(img0, c, key, (b - 1) as nat);
    let kl = first_key_view(page_of(img1, c))->Some_0;
    let kr = match rc {
        Some(r) => Some(first_key_view(r)->Some_0),
        None => None,
    };
    &&& insert_pre(img0, ptr, key, b, lo, hi)
    &&& page_at(img0, ptr) matches Ok(PageView::Internal { .. })
    &&& b >= 2
    &&& walk_blocks(img0, ptr, key, b) == seq![ptr] + s_child
    &&& s_child.len() >= 1
    &&& s_child[0] == c
    &&& nf0 <= nf1 <= nf_final
    &&& rc matches Some(r) ==> nf1 < nf_final && page_at(img_final, nf1) == Ok::<PageView, DbErrorView>(r)
    &&& page_at(img1, c) is Ok
    &&& forall|i: int| 0 <= i < s_child.len() ==> page_at(img_final, #[trigger] s_child[i]) == page_at(img1, s_child[i])
    &&& forall|q: u64| nf0 <= q < nf1 ==> page_at(img_final, q) == page_at(img1, q)
    &&& keys_fit(keys)
    &&& keys_sorted(keys)
    &&& keys_within(keys, lo, hi)
    &&& bound_fits(lo)
    &&& bound_fits(hi)
    &&& key.len() <= 12
    &&& key_within(key, lo, hi)
    &&& 0 < keys.len()
    &&& keys.len() == children.len()
    &&& kl.len() <= 12
    &&& key_within(kl, child_lo(keys, key, lo), child_hi(keys, key, hi))
    &&& sorts_le(kl, key)
    &&& rc matches Some(r) ==> (first_key_view(r) matches Some(k) && k.len() <= 12
        && key_within(k, child_lo(keys, key, lo), child_hi(keys, key, hi)) && sorts_le(kl, k))
    &&& v_full matches PageView::Internal { keys: kf, children: cf, .. } && kf == parent_keys(keys, key, kl, kr)
        && cf == parent_children(keys, children, key, kl, kr, nf1)
}

/// Where `other`'s lookup follows the same child as `key`'s, the child's outcome
/// applies to it: a lookup from the page left at the child (or its sibling) finds
/// what the lookup from the parent found before.
proof fn lemma_child_instance(
    img0: Seq<Seq<u8>>,
    nf0: u64,
    img1: Seq<Seq<u8>>,
    nf1: u64,
    img_final: Seq<Seq<u8>>,
    nf_final: u64,
    ptr: u64,
    key: Seq<u8>,
    b: nat,
    lo: Option<Seq<u8>>,
    hi: Option<Seq<u8>>,
    rc: Option<PageView>,
    other: Seq<u8>,
    w: Seq<Seq<u8>>,
)
    requires
        insert_pre(img0, ptr, key, b, lo, hi),
        page_at(img0, ptr) matches Ok(PageView::Internal { keys, .. }) && route(keys, other) == route(keys, key),
        ({
            let keys = page_of(img0, ptr)->Internal_keys;
            let children = page_of(img0, ptr)->Internal_children;
            let c = children[route(keys, key)];
            let s_child = walk_blocks(img0, c, key, (b - 1) as nat);
            &&& walk_blocks(img0, ptr, key, b) == seq![ptr] + s_child
            &&& s_child.len() >= 1
            &&& s_child[0] == c
            &&& nf1 <= nf_final
            &&& frame_lookup_at(img0, img1, s_child, nf0, nf1, c, key, (b - 1) as nat, child_lo(keys, key, lo), child_hi(keys, key, hi), rc)
            &&& forall|i: int| 0 <= i < s_child.len() ==> page_at(img_final, #[trigger] s_child[i]) == page_at(img1, s_child[i])
            &&& forall|q: u64| nf0 <= q < nf1 ==> page_at(img_final, q) == page_at(img1, q)
        }),
        frame_pre(img0, ptr, key, other, b, lo, hi),
        reads_alike(w, img_final, walk_blocks(img0, ptr, key, b).drop_first(), nf0, nf_final),
        untouched_for(w, img0, ptr, other, b, walk_blocks(img0, ptr, key, b)),
    ensures
        ({
            let keys = page_of(img0, ptr)->Internal_keys;
            let children = page_of(img0, ptr)->Internal_children;
            let c = children[route(keys, key)];
            &&& frame_found(w, page_of(img1, c), rc, other, (b - 2) as nat, find_walk(img0, ptr, other, b))
            &&& page_at(w, c) == page_at(img1, c)
        }),
{
    let v0 = page_of(img0, ptr);
    let keys = v0->Internal_keys;
    let children = v0->Internal_children;
    let c = children[route(keys, key)];
    let s_child = walk_blocks(img0, c, key, (b - 1) as nat);
    let s = walk_blocks(img0, ptr, key, b);
    let t = walk_blocks(img0, ptr, other, b);
    lemma_frame_pre_child(img0, ptr, key, other, b, lo, hi);
    let tc = walk_blocks(img0, c, other, (b - 1) as nat);
    assert(t.drop_first() =~= tc);
    assert(s.drop_first() =~= s_child);
    super::grow::lemma_find_ins(img0, ptr, other, b);
    lemma_walk_no_return(img0, ptr, other, b);
    lemma_reads_below(img1, nf0, nf1, img_final, nf_final, s_child, w);
    assert forall|i: int| 0 <= i < tc.len() && !s_child.contains(tc[i]) implies page_at(w, #[trigger] tc[i]) == page_at(img0, tc[i]) by {
        assert(tc[i] == t[i + 1]);
        assert(t.drop_first().contains(tc[i]));
        if s.contains(tc[i]) {
            let j = choose|j: int| 0 <= j < s.len() && s[j] == tc[i];
            if j > 0 {
                assert(s_child[j - 1] == s[j]);
            }
        }
    }
    assert(untouched_for(w, img0, c, other, (b - 1) as nat, s_child));
    assert(frame_pre(img0, c, key, other, (b - 1) as nat, child_lo(keys, key, lo), child_hi(keys, key, hi)));
    assert(reads_alike(w, img1, s_child.drop_first(), nf0, nf1));
}

/// Where `other`'s lookup follows the same child as `key`'s, the lookup from the
/// parent's new page finds what it found before.
proof fn lemma_same_child_find(
    img0: Seq<Seq<u8>>,
    nf0: u64,
    img1: Seq<Seq<u8>>,
    nf1: u64,
    img_final: Seq<Seq<u8>>,
    nf_final: u64,
    ptr: u64,
    key: Seq<u8>,
    b: nat,
    lo: Option<Seq<u8>>,
    hi: Option<Seq<u8>>,
    rc: Option<PageView>,
    v_full: PageView,
    other: Seq<u8>,
    w: Seq<Seq<u8>>,
)
    requires
        parent_state(img0, nf0, img1, nf1, img_final, nf_final, ptr, key, b, lo, hi, rc, v_full),
        route(page_of(img0, ptr)->Internal_keys, other) == route(page_of(img0, ptr)->Internal_keys, key),
        frame_pre(img0, ptr, key, other, b, lo, hi),
        reads_alike(w, img_final, walk_blocks(img0, ptr, key, b).drop_first(), nf0, nf_final),
        ({
            let keys = page_of(img0, ptr)->Internal_keys;
            let c = page_of(img0, ptr)->Internal_children[route(keys, key)];
            &&& frame_found(w, page_of(img1, c), rc, other, (b - 2) as nat, find_walk(img0, ptr, other, b))
            &&& page_at(w, c) == page_at(img1, c)
        }),
    ensures
        find_from(w, v_full, other, (b - 1) as nat) == find_walk(img0, ptr, other, b),
{
    let v0 = page_of(img0, ptr);
    let keys = v0->Internal_keys;
    let children = v0->Internal_children;
    let c = children[route(keys, key)];
    let l1 = page_of(img1, c);
    let kl = first_key_view(l1)->Some_0;
    let kr = match rc {
        Some(r) => Some(first_key_view(r)->Some_0),
        None => None,
    };
    let kf = v_full->Internal_keys;
    let cf = v_full->Internal_children;
    let e = find_walk(img0, ptr, other, b);
    assert(frame_found(w, l1, rc, other, (b - 2) as nat, e));
    assert(other.len() <= 12);
    lemma_sorts_total(kl, other);
    if let Some(r) = rc {
        let k = first_key_view(r)->Some_0;
        lemma_sorts_total(other, k);
        if sorts_le(k, other) {
            lemma_sorts_trans(kl, k, other);
        }
    }
    assert(sorts_le(kl, other));
    let r0 = route(keys, key);
    lemma_parent_update(keys, key, kl, lo, hi);
    let k1 = keys.update(r0, kl);
    lemma_upper_facts(keys, other);
    assert forall|i: int| r0 + 1 <= i < k1.len() implies sorts_lt(other, #[trigger] k1[i]) by {
        assert(k1[i] == keys[i]);
    }
    lemma_upper_unique(k1, other, r0 + 1);
    if let Some(k) = kr {
        if r0 + 1 < k1.len() {
            assert(k1[r0 + 1] == keys[r0 + 1]);
        }
        super::grow::lemma_parent_insert(k1, other, k, lo, hi);
        super::grow::lemma_parent_insert(k1, key, k, lo, hi);
        lemma_sorts_total(other, k);
    }
    let q = upper_view_pos(kf, other);
    match rc {
        None => {
            assert(cf[q - 1] == c);
            super::grow::lemma_find_step(w, c, other, (b - 1) as nat);
        },
        Some(r) => {
            let k = first_key_view(r)->Some_0;
            if sorts_lt(other, k) {
                assert(cf[q - 1] == c);
                super::grow::lemma_find_step(w, c, other, (b - 1) as nat);
            } else {
                assert(cf[q - 1] == nf1);
                assert(page_at(w, nf1) == page_at(img_final, nf1));
                super::grow::lemma_find_step(w, nf1, other, (b - 1) as nat);
            }
        },
    }
}

/// Where `other`'s lookup follows another child than `key`'s, the lookup from the
/// parent's new page goes to that child, whose blocks did not change.
proof fn lemma_other_child_find(
    img0: Seq<Seq<u8>>,
    nf0: u64,
    img1: Seq<Seq<u8>>,
    nf1: u64,
    img_final: Seq<Seq<u8>>,
    nf_final: u64,
    ptr: u64,
    key: Seq<u8>,
    b: nat,
    lo: Option<Seq<u8>>,
    hi: Option<Seq<u8>>,
    rc: Option<PageView>,
    v_full: PageView,
    other: Seq<u8>,
    w: Seq<Seq<u8>>,
)
    requires
        parent_state(img0, nf0, img1, nf1, img_final, nf_final, ptr, key, b, lo, hi, rc, v_full),
        route(page_of(img0, ptr)->Internal_keys, other) != route(page_of(img0, ptr)->Internal_keys, key),
        frame_pre(img0, ptr, key, other, b, lo, hi),
        untouched_for(w, img0, ptr, other, b, walk_blocks(img0, ptr, key, b)),
    ensures
        find_from(w, v_full, other, (b - 1) as nat) == find_walk(img0, ptr, other, b),
{
    let v0 = page_of(img0, ptr);
    let keys = v0->Internal_keys;
    let children = v0->Internal_children;
    let c = children[route(keys, key)];
    let s = walk_blocks(img0, ptr, key, b);
    let t = walk_blocks(img0, ptr, other, b);
    let l1 = page_of(img1, c);
    let kl = first_key_view(l1)->Some_0;
    let kr = match rc {
        Some(r) => Some(first_key_view(r)->Some_0),
        None => None,
    };
    let p2 = upper_view_pos(keys, other);
    lemma_upper_view_pos_bound(keys, other);
    assert(p2 > 0 && p2 - 1 < children.len());
    let c2 = children[p2 - 1];
    assert(route(keys, other) == p2 - 1);
    let tc = walk_blocks(img0, c2, other, (b - 1) as nat);
    assert(t.drop_first() =~= tc);
    assert(apart(tc, s));
    lemma_parent_other(keys, children, key, other, kl, kr, nf1, lo, hi);
    assert forall|i: int| 0 <= i < tc.len() implies page_at(w, #[trigger] tc[i]) == page_at(img0, tc[i]) by {
        assert(tc[i] == t[i + 1]);
        assert(!s.contains(tc[i]));
    }
    lemma_walk_agree(w, img0, c2, other, (b - 1) as nat);
}

/// The frame at a parent for one key `other` and one image `w`: a lookup of
/// `other` from the page left at `ptr` (or its new sibling) finds what it found
/// before.
pub proof fn lemma_internal_frame_one(
    img0: Seq<Seq<u8>>,
    nf0: u64,
    img1: Seq<Seq<u8>>,
    nf1: u64,
    img_final: Seq<Seq<u8>>,
    nf_final: u64,
    ptr: u64,
    key: Seq<u8>,
    b: nat,
    lo: Option<Seq<u8>>,
    hi: Option<Seq<u8>>,
    rc: Option<PageView>,
    v_full: PageView,
    vl: Option<PageView>,
    vr: Option<PageView>,
    h: int,
    other: Seq<u8>,
    w: Seq<Seq<u8>>,
)
    requires
        parent_state(img0, nf0, img1, nf1, img_final, nf_final, ptr, key, b, lo, hi, rc, v_full),
        ({
            let keys = page_of(img0, ptr)->Internal_keys;
            let c = page_of(img0, ptr)->Internal_children[route(keys, key)];
            frame_lookup_at(
                img0,
                img1,
                walk_blocks(img0, c, key, (b - 1) as nat),
                nf0,
                nf1,
                c,
                key,
                (b - 1) as nat,
                child_lo(keys, key, lo),
                child_hi(keys, key, hi),
                rc,
            )
        }),
        vl is Some <==> vr is Some,
        vl is Some ==> 0 < h < v_full->Internal_keys.len(),
        vl matches Some(l) ==> l matches PageView::Internal { keys, children, .. } && keys
            == v_full->Internal_keys.take(h) && children == v_full->Internal_children.take(h),
        vr matches Some(r) ==> r matches PageView::Internal { keys, children, .. } && keys
            == v_full->Internal_keys.skip(h) && children == v_full->Internal_children.skip(h),
        page_at(img_final, ptr) == Ok::<PageView, DbErrorView>(
            match vl {
                Some(l) => l,
                None => v_full,
            },
        ),
        frame_pre(img0, ptr, key, other, b, lo, hi),
        reads_alike(w, img_final, walk_blocks(img0, ptr, key, b).drop_first(), nf0, nf_final),
        untouched_for(w, img0, ptr, other, b, walk_blocks(img0, ptr, key, b)),
    ensures
        frame_found(w, page_of(img_final, ptr), vr, other, (b - 1) as nat, find_walk(img0, ptr, other, b)),
{
    let v0 = page_of(img0, ptr);
    let keys = v0->Internal_keys;
    let children = v0->Internal_children;
    let c = children[route(keys, key)];
    let kl = first_key_view(page_of(img1, c))->Some_0;
    let kr = match rc {
        Some(r) => Some(first_key_view(r)->Some_0),
        None => None,
    };
    let kf = v_full->Internal_keys;
    if route(keys, other) == route(keys, key) {
        lemma_child_instance(img0, nf0, img1, nf1, img_final, nf_final, ptr, key, b, lo, hi, rc, other, w);
        lemma_same_child_find(img0, nf0, img1, nf1, img_final, nf_final, ptr, key, b, lo, hi, rc, v_full, other, w);
    } else {
        lemma_other_child_find(img0, nf0, img1, nf1, img_final, nf_final, ptr, key, b, lo, hi, rc, v_full, other, w);
    }
    let e = find_walk(img0, ptr, other, b);
    assert(e is Found);
    lemma_parent_keys(keys, children, key, kl, kr, nf1, lo, hi);
    let q = upper_view_pos(kf, other);
    lemma_upper_view_pos_bound(kf, other);
    assert(q > 0);
    super::grow::lemma_upper_sorted(kf, other);
    assert(sorts_le(kf[0], other));
    if let (Some(x), Some(y)) = (vl, vr) {
        super::grow::lemma_parent_split(w, v_full, x, y, other, h, (b - 1) as nat);
        lemma_sorts_total(other, kf[h]);
    }
}

/// The frame at a parent, from the short facts of the insertion below it (as for
/// its outcome) and the child's frame.
#[verifier::rlimit(60)]
pub proof fn lemma_internal_frame(
    img0: Seq<Seq<u8>>,
    nf0: u64,
    img1: Seq<Seq<u8>>,
    nf1: u64,
    img_pre: Seq<Seq<u8>>,
    nf_final: u64,
    img3: Seq<Seq<u8>>,
    img_final: Seq<Seq<u8>>,
    ptr: u64,
    key: Seq<u8>,
    b: nat,
    lo: Option<Seq<u8>>,
    hi: Option<Seq<u8>>,
    rc: Option<PageView>,
    v_full: PageView,
    vl: Option<PageView>,
    vr: Option<PageView>,
    h: int,
)
    requires
        insert_pre(img0, ptr, key, b, lo, hi),
        page_at(img0, ptr) matches Ok(PageView::Internal { .. }),
        image_ok(img1),
        ({
            let keys = page_of(img0, ptr)->Internal_keys;
            let children = page_of(img0, ptr)->Internal_children;
            let c = children[route(keys, key)];
            let s_child = walk_blocks(img0, c, key, (b - 1) as nat);
            let kl = first_key_view(page_of(img1, c))->Some_0;
            let kr = match rc {
                Some(r) => Some(first_key_view(r)->Some_0),
                None => None,
            };
            &&& b >= 2
            &&& walk_blocks(img0, ptr, key, b) == seq![ptr] + s_child
            &&& s_child.len() >= 1
            &&& s_child[0] == c
            &&& forall|i: int| 0 <= i < s_child.len() ==> (#[trigger] s_child[i]) < nf0
            &&& !s_child.contains(ptr)
            &&& ptr < nf0 <= nf1
            &&& nf1 < u64::MAX
            &&& forall|i: int| 0 <= i < s_child.len() ==> page_at(img1, #[trigger] s_child[i]) is Ok
            &&& forall|q: u64| nf0 <= q < nf1 ==> page_at(img1, q) is Ok
            &&& frame_outcome(img0, nf0, img1, nf1, c, key, (b - 1) as nat, child_lo(keys, key, lo), child_hi(keys, key, hi), rc)
            &&& keys_fit(keys)
            &&& keys_sorted(keys)
            &&& keys_within(keys, lo, hi)
            &&& bound_fits(lo)
            &&& bound_fits(hi)
            &&& key.len() <= 12
            &&& key_within(key, lo, hi)
            &&& 0 < keys.len()
            &&& keys.len() == children.len()
            &&& kl.len() <= 12
            &&& key_within(kl, child_lo(keys, key, lo), child_hi(keys, key, hi))
            &&& sorts_le(kl, key)
            &&& rc matches Some(r) ==> valid_view(r)
            &&& rc matches Some(r) ==> (first_key_view(r) matches Some(k) && k.len() <= 12
                && key_within(k, child_lo(keys, key, lo), child_hi(keys, key, hi)) && sorts_le(kl, k))
            &&& v_full matches PageView::Internal { keys: kf, children: cf, .. } && kf == parent_keys(keys, key, kl, kr)
                && cf == parent_children(keys, children, key, kl, kr, nf1)
        }),
        match rc {
            Some(r) => img_pre == write_image(img1, nf1, encode_view(r)) && nf_final == nf1 + 1
                && encode_view(r).len() <= 4096,
            None => img_pre == img1 && nf_final == nf1,
        },
        valid_view(v_full),
        encode_view(v_full).len() <= 4096,
        img3 == write_image(img_pre, ptr, encode_view(v_full)),
        vl is Some <==> vr is Some,
        match vl {
            Some(l) => valid_view(l) && encode_view(l).len() <= 4096 && img_final == write_image(
                img3,
                ptr,
                encode_view(l),
            ),
            None => img_final == img3,
        },
        vl is Some ==> 0 < h < v_full->Internal_keys.len(),
        vl matches Some(l) ==> l matches PageView::Internal { keys, children, .. } && keys
            == v_full->Internal_keys.take(h) && children == v_full->Internal_children.take(h),
        vr matches Some(r) ==> r matches PageView::Internal { keys, children, .. } && keys
            == v_full->Internal_keys.skip(h) && children == v_full->Internal_children.skip(h),
    ensures
        frame_outcome(img0, nf0, img_final, nf_final, ptr, key, b, lo, hi, vr),
{
    let keys = page_of(img0, ptr)->Internal_keys;
    let children = page_of(img0, ptr)->Internal_children;
    let c = children[route(keys, key)];
    let s_child = walk_blocks(img0, c, key, (b - 1) as nat);
    let s = walk_blocks(img0, ptr, key, b);
    lemma_parent_reads(img1, nf0, nf1, rc, img_pre, nf_final, ptr, v_full, img3, vl, img_final, s_child);
    assert(parent_state(img0, nf0, img1, nf1, img_final, nf_final, ptr, key, b, lo, hi, rc, v_full));
    assert forall|q: u64| q < nf0 && !s.contains(q) && page_at(img0, q) is Ok implies #[trigger] page_at(img_final, q) == page_at(img0, q) by {
        assert(s[0] == ptr);
        if s_child.contains(q) {
            let j = choose|j: int| 0 <= j < s_child.len() && s_child[j] == q;
            assert(s[j + 1] == q);
        }
        assert(page_at(img1, q) == page_at(img0, q));
    }
    assert forall|other: Seq<u8>, w: Seq<Seq<u8>>|
        #![trigger frame_pre(img0, ptr, key, other, b, lo, hi), reads_alike(w, img_final, s.drop_first(), nf0, nf_final)]
        frame_pre(img0, ptr, key, other, b, lo, hi) && reads_alike(w, img_final, s.drop_first(), nf0, nf_final)
            && untouched_for(w, img0, ptr, other, b, s) implies frame_found(
            w,
            page_of(img_final, ptr),
            vr,
            other,
            (b - 1) as nat,
            find_walk(img0, ptr, other, b),
        ) by {
        lemma_internal_frame_one(img0, nf0, img1, nf1, img_final, nf_final, ptr, key, b, lo, hi, rc, v_full, vl, vr, h, other, w);
    }
}

/// Every block of a lookup that finds its leaf reads as a page, so it lies within
/// the image.
proof fn lemma_walk_within(img: Seq<Seq<u8>>, ptr: u64, key: Seq<u8>, budget: nat)
    requires
        find_walk(img, ptr, key, budget) is Found,
    ensures
        forall|i: int|
            0 <= i < walk_blocks(img, ptr, key, budget).len() ==> page_at(
                img,
                #[trigger] walk_blocks(img, ptr, key, budget)[i],
            ) is Ok && walk_blocks(img, ptr, key, budget)[i] < img.len(),
{
    super::grow::lemma_find_ins(img, ptr, key, budget);
    super::grow::lemma_walk_chain(img, ptr, key, budget);
}

/// When the root did not split, a lookup from block 0 of every key that the
/// insertion keeps finds what it found before.
pub proof fn lemma_root_keep_frame(
    img0: Seq<Seq<u8>>,
    nf0: u64,
    img1: Seq<Seq<u8>>,
    nf1: u64,
    key: Seq<u8>,
    n0: nat,
    other: Seq<u8>,
)
    requires
        n0 == img0.len(),
        img0.len() <= nf0,
        img1.len() >= n0,
        page_at(img1, 0) is Ok,
        frame_outcome(img0, nf0, img1, nf1, 0, key, n0, None, None, None),
        frame_pre(img0, 0, key, other, n0, None, None),
    ensures
        find_walk(img1, 0, other, img1.len()) == find_walk(img0, 0, other, n0),
{
    let s = walk_blocks(img0, 0, key, n0);
    let t = walk_blocks(img0, 0, other, n0);
    lemma_walk_within(img0, 0, other, n0);
    assert forall|i: int| 0 <= i < t.len() && !s.contains(t[i]) implies page_at(img1, #[trigger] t[i]) == page_at(img0, t[i]) by {
        assert(page_at(img0, t[i]) is Ok);
    }
    assert(untouched_for(img1, img0, 0, other, n0, s));
    assert(reads_alike(img1, img1, s.drop_first(), nf0, nf1));
    assert(frame_found(img1, page_of(img1, 0), None, other, (n0 - 1) as nat, find_walk(img0, 0, other, n0)));
    super::grow::lemma_find_step(img1, 0, other, img1.len());
    super::grow::lemma_find_from_budget(img1, page_of(img1, 0), other, (n0 - 1) as nat, (img1.len() - 1) as nat);
}

/// When the root split, with the old root's page moved to block `nf1 + 1`, its
/// sibling at `nf1` and a new root at block 0 over their first keys: a lookup from
/// block 0 of every key that the insertion keeps finds what it found before.
#[verifier::rlimit(40)]
pub proof fn lemma_root_split_frame(
    img0: Seq<Seq<u8>>,
    nf0: u64,
    img1: Seq<Seq<u8>>,
    nf1: u64,
    img4: Seq<Seq<u8>>,
    key: Seq<u8>,
    n0: nat,
    r: PageView,
    l: PageView,
    root: PageView,
    other: Seq<u8>,
)
    requires
        n0 == img0.len(),
        n0 >= 1,
        img0.len() <= nf0 <= nf1,
        image_ok(img1),
        frame_outcome(img0, nf0, img1, nf1, 0, key, n0, None, None, Some(r)),
        frame_pre(img0, 0, key, other, n0, None, None),
        l == page_of(img1, 0),
        first_key_view(l) matches Some(kl) && kl.len() <= 12,
        first_key_view(r) matches Some(kr) && kr.len() <= 12 && sorts_le(first_key_view(l)->Some_0, kr),
        reads_alike(img4, img1, walk_blocks(img0, 0, key, n0).drop_first(), nf0, nf1),
        forall|q: u64| q != 0 && q < nf0 && page_at(img1, q) is Ok ==> #[trigger] page_at(img4, q) == page_at(img1, q),
        page_at(img4, nf1) == Ok::<PageView, DbErrorView>(r),
        page_at(img4, (nf1 + 1) as u64) == Ok::<PageView, DbErrorView>(l),
        page_at(img4, 0) == Ok::<PageView, DbErrorView>(root),
        img4.len() >= n0 + 2,
        root matches PageView::Internal { keys, children, .. } && keys == seq![
            first_key_view(l)->Some_0,
            first_key_view(r)->Some_0,
        ] && children == seq![(nf1 + 1) as u64, nf1],
    ensures
        find_walk(img4, 0, other, img4.len()) == find_walk(img0, 0, other, n0),
{
    let s = walk_blocks(img0, 0, key, n0);
    let t = walk_blocks(img0, 0, other, n0);
    let kl = first_key_view(l)->Some_0;
    let kr = first_key_view(r)->Some_0;
    let e = find_walk(img0, 0, other, n0);
    lemma_walk_within(img0, 0, other, n0);
    assert(s[0] == 0);
    assert forall|i: int| 0 <= i < t.len() && !s.contains(t[i]) implies page_at(img4, #[trigger] t[i]) == page_at(img0, t[i]) by {
        assert(page_at(img0, t[i]) is Ok);
        assert(t[i] != 0);
        assert(page_at(img1, t[i]) == page_at(img0, t[i]));
    }
    assert(untouched_for(img4, img0, 0, other, n0, s));
    assert(frame_found(img4, l, Some(r), other, (n0 - 1) as nat, e));
    lemma_sorts_total(other, kr);
    super::grow::lemma_find_step(img4, 0, other, img4.len());
    let ks = seq![kl, kr];
    assert(keys_fit(ks));
    if sorts_lt(other, kr) {
        assert forall|i: int| 1 <= i < ks.len() implies sorts_lt(other, #[trigger] ks[i]) by {}
        lemma_upper_unique(ks, other, 1);
        super::grow::lemma_find_step(img4, (nf1 + 1) as u64, other, (img4.len() - 1) as nat);
        super::grow::lemma_find_from_budget(img4, l, other, (n0 - 1) as nat, (img4.len() - 2) as nat);
    } else {
        lemma_sorts_total(kl, kr);
        lemma_sorts_trans(kl, kr, other);
        lemma_upper_unique(ks, other, 2);
        super::grow::lemma_find_step(img4, nf1, other, (img4.len() - 1) as nat);
        super::grow::lemma_find_from_budget(img4, r, other, (n0 - 1) as nat, (img4.len() - 2) as nat);
    }
}

} // verus!
