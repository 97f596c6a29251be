//! What a lookup, an update and a removal do to an image of the page file,
//! stated page by page along the path from the root.

use vstd::prelude::*;
use crate::error::DbErrorView;
use super::page::leaf::pad12;
use super::page::order::lex_le;
use super::grow::{child_hi, child_lo, route, keys_sorted, keys_within, ordered_walk, page_keys, sorts_le, sorts_lt};
use super::disk::{PageView, cycle_message, encode_view, image_ok, page_at, pad_block,
    write_image, lemma_page_roundtrip, valid_view};

verus! {

/// One past the last separator key that sorts at or before `key`, comparing the
/// keys right-aligned in twelve bytes.
pub open spec fn upper_view_pos(keys: Seq<Seq<u8>>, key: Seq<u8>) -> int
    decreases keys.len(),
{
    if keys.len() == 0 {
        0
    } else if lex_le(pad12(keys.last()), pad12(key)) {
        keys.len() as int
    } else {
        upper_view_pos(keys.drop_last(), key)
    }
}

pub proof fn lemma_upper_view_pos_bound(keys: Seq<Seq<u8>>, key: Seq<u8>)
    ensures
        0 <= upper_view_pos(keys, key) <= keys.len(),
    decreases keys.len(),
{
    if keys.len() > 0 {
        lemma_upper_view_pos_bound(keys.drop_last(), key);
    }
}

/// The first position of a leaf whose key bytes are `key`.
pub open spec fn first_kv_index(kvs: Seq<(Seq<u8>, Seq<u8>)>, key: Seq<u8>) -> Option<int>
    decreases kvs.len(),
{
    if kvs.len() == 0 {
        None
    } else if kvs[0].0 == key {
        Some(0)
    } else {
        match first_kv_index(kvs.drop_first(), key) {
            Some(i) => Some(i + 1),
            None => None,
        }
    }
}

/// The page at block `p`, where it decodes.
pub open spec fn page_of(img: Seq<Seq<u8>>, p: u64) -> PageView {
    match page_at(img, p) {
        Ok(v) => v,
        Err(_) => arbitrary(),
    }
}

/// The outcome of a lookup.
pub enum Lookup {
    /// The entry with the key, if the leaf that the walk reaches has one.
    Found(Option<(Seq<u8>, Seq<u8>)>),
    /// The walk met an error.
    Failed(DbErrorView),
    /// The walk reached an internal page whose first key sorts after the key.
    Stuck,
}

/// The lookup of `key` from the page at `ptr`, visiting at most `budget` pages.
pub open spec fn find_walk(img: Seq<Seq<u8>>, ptr: u64, key: Seq<u8>, budget: nat) -> Lookup
    decreases budget,
{
    if budget == 0 {
        Lookup::Failed(DbErrorView::InvalidFormat(cycle_message()))
    } else {
        match page_at(img, ptr) {
            Err(e) => Lookup::Failed(e),
            Ok(PageView::Internal { keys, children, .. }) => {
                if key.len() > 12 {
                    Lookup::Failed(DbErrorView::KeySizeExceeded(key.len() as usize, 12))
                } else {
                    let p = upper_view_pos(keys, key);
                    if p == 0 {
                        Lookup::Stuck
                    } else if p - 1 < children.len() {
                        find_walk(img, children[p - 1], key, (budget - 1) as nat)
                    } else {
                        Lookup::Found(None)
                    }
                }
            },
            Ok(PageView::Leaf { kvs, .. }) => match first_kv_index(kvs, key) {
                Some(i) => Lookup::Found(Some(kvs[i])),
                None => Lookup::Found(None),
            },
        }
    }
}

/// The leaf block and the position in it of the entry with `key` that an update or
/// a removal from the page at `ptr` reaches, visiting at most `budget` pages; `None`
/// when the leaf that the walk reaches has no such entry.
pub open spec fn leaf_target(img: Seq<Seq<u8>>, ptr: u64, key: Seq<u8>, budget: nat) -> Result<
    Option<(u64, int)>,
    DbErrorView,
>
    decreases budget,
{
    if budget == 0 {
        Err(DbErrorView::InvalidFormat(cycle_message()))
    } else {
        match page_at(img, ptr) {
            Err(e) => Err(e),
            Ok(PageView::Internal { keys, children, .. }) => {
                if key.len() > 12 {
                    Err(DbErrorView::KeySizeExceeded(key.len() as usize, 12))
                } else {
                    let p = upper_view_pos(keys, key);
                    let pos = if p == 0 {
                        0
                    } else {
                        p - 1
                    };
                    if pos < children.len() {
                        leaf_target(img, children[pos], key, (budget - 1) as nat)
                    } else {
                        Ok(None)
                    }
                }
            },
            Ok(PageView::Leaf { kvs, .. }) => match first_kv_index(kvs, key) {
                Some(i) => Ok(Some((ptr, i))),
                None => Ok(None),
            },
        }
    }
}

/// The leaf at `lp` with its entry at `i` replaced by `kv`.
pub open spec fn leaf_with_update(img: Seq<Seq<u8>>, lp: u64, i: int, kv: (Seq<u8>, Seq<u8>)) -> PageView {
    match page_at(img, lp) {
        Ok(PageView::Leaf { header, nkv, kvs }) => PageView::Leaf { header, nkv, kvs: kvs.update(i, kv) },
        _ => PageView::Leaf { header: arbitrary(), nkv: 0, kvs: Seq::empty() },
    }
}

/// The leaf at `lp` without its entry at `i`.
pub open spec fn leaf_without(img: Seq<Seq<u8>>, lp: u64, i: int) -> PageView {
    match page_at(img, lp) {
        Ok(PageView::Leaf { header, nkv, kvs }) => PageView::Leaf {
            header,
            nkv: (nkv - 1) as u16,
            kvs: kvs.remove(i),
        },
        _ => PageView::Leaf { header: arbitrary(), nkv: 0, kvs: Seq::empty() },
    }
}

/// The leaf that an update of `key` reaches holds no other entry with that key.
pub open spec fn target_key_once(img: Seq<Seq<u8>>, ptr: u64, key: Seq<u8>, budget: nat) -> bool {
    leaf_target(img, ptr, key, budget) matches Ok(Some((lp, i))) ==> (page_at(img, lp) matches Ok(
        PageView::Leaf { kvs, .. },
    ) && forall|j: int| 0 <= j < kvs.len() && j != i ==> (#[trigger] kvs[j]).0 != key)
}

pub proof fn lemma_first_kv_index(kvs: Seq<(Seq<u8>, Seq<u8>)>, key: Seq<u8>)
    ensures
        match first_kv_index(kvs, key) {
            Some(i) => 0 <= i < kvs.len() && kvs[i].0 == key && forall|j: int|
                0 <= j < i ==> (#[trigger] kvs[j]).0 != key,
            None => forall|j: int| 0 <= j < kvs.len() ==> (#[trigger] kvs[j]).0 != key,
        },
    decreases kvs.len(),
{
    if kvs.len() > 0 && kvs[0].0 != key {
        let t = kvs.drop_first();
        lemma_first_kv_index(t, key);
        assert(forall|j: int| 0 <= j < t.len() ==> t[j] == kvs[j + 1]);
        match first_kv_index(t, key) {
            Some(i) => {
                assert forall|j: int| 0 <= j < i + 1 implies (#[trigger] kvs[j]).0 != key by {
                    if j > 0 {
                        assert(kvs[j] == t[j - 1]);
                    }
                }
            },
            None => {
                assert forall|j: int| 0 <= j < kvs.len() implies (#[trigger] kvs[j]).0 != key by {
                    if j > 0 {
                        assert(kvs[j] == t[j - 1]);
                    }
                }
            },
        }
    }
}

pub proof fn lemma_first_kv_index_is(kvs: Seq<(Seq<u8>, Seq<u8>)>, key: Seq<u8>, i: int)
    requires
        0 <= i < kvs.len(),
        kvs[i].0 == key,
        forall|j: int| 0 <= j < i ==> (#[trigger] kvs[j]).0 != key,
    ensures
        first_kv_index(kvs, key) == Some(i),
    decreases kvs.len(),
{
    if i > 0 {
        let t = kvs.drop_first();
        assert forall|j: int| 0 <= j < i - 1 implies (#[trigger] t[j]).0 != key by {
            assert(t[j] == kvs[j + 1]);
        }
        lemma_first_kv_index_is(t, key, i - 1);
    }
}

pub proof fn lemma_first_kv_index_none(kvs: Seq<(Seq<u8>, Seq<u8>)>, key: Seq<u8>)
    requires
        forall|j: int| 0 <= j < kvs.len() ==> (#[trigger] kvs[j]).0 != key,
    ensures
        first_kv_index(kvs, key) == None::<int>,
    decreases kvs.len(),
{
    if kvs.len() > 0 {
        let t = kvs.drop_first();
        assert forall|j: int| 0 <= j < t.len() implies (#[trigger] t[j]).0 != key by {
            assert(t[j] == kvs[j + 1]);
        }
        lemma_first_kv_index_none(t, key);
    }
}

/// Where the lookup does not get stuck, it follows the same path as an update, so
/// after an update of an entry a lookup of its key finds the new entry.
pub proof fn lemma_update_then_find(
    img: Seq<Seq<u8>>,
    ptr: u64,
    key: Seq<u8>,
    val: Seq<u8>,
    budget: nat,
    lp: u64,
    i: int,
)
    requires
        image_ok(img),
        key.len() <= 12,
        val.len() <= 12,
        leaf_target(img, ptr, key, budget) == Ok::<Option<(u64, int)>, DbErrorView>(Some((lp, i))),
        !(find_walk(img, ptr, key, budget) is Stuck),
        encode_view(leaf_with_update(img, lp, i, (key, val))).len() <= 4096,
    ensures
        find_walk(
            write_image(img, lp, encode_view(leaf_with_update(img, lp, i, (key, val)))),
            ptr,
            key,
            budget,
        ) == Lookup::Found(Some((key, val))),
    decreases budget,
{
    let nv = leaf_with_update(img, lp, i, (key, val));
    let w = write_image(img, lp, encode_view(nv));
    lemma_leaf_target_leaf(img, ptr, key, budget, lp, i);
    let kvs = page_of(img, lp)->kvs;
    lemma_page_at_valid(img, lp);
    assert(valid_view(nv)) by {
        assert forall|j: int| 0 <= j < kvs.update(i, (key, val)).len() implies (#[trigger] kvs.update(i, (key, val))[j]).0.len() <= 12 && kvs.update(i, (key, val))[j].1.len() <= 12 by {
            if j != i {
                assert(kvs[j].0.len() <= 12 && kvs[j].1.len() <= 12);
            }
        }
    }
    crate::btree::disk::lemma_write_then_read(img, lp, nv, ptr);
    if ptr == lp {
        let nkvs = kvs.update(i, (key, val));
        lemma_first_kv_index(kvs, key);
        assert forall|j: int| 0 <= j < i implies (#[trigger] nkvs[j]).0 != key by {
            assert(nkvs[j] == kvs[j]);
        }
        lemma_first_kv_index_is(nkvs, key, i);
    } else {
        // the page at `ptr` is internal and unchanged
        let keys = page_of(img, ptr)->keys;
        let children = page_of(img, ptr)->children;
        let p = upper_view_pos(keys, key);
        lemma_leaf_target_full(img, ptr, key, budget);
        lemma_update_then_find(img, children[p - 1], key, val, (budget - 1) as nat, lp, i);
    }
}

/// Where a removal reaches an entry and no other entry of that leaf has its key, a
/// lookup after the removal finds nothing.
pub proof fn lemma_remove_then_find(
    img: Seq<Seq<u8>>,
    ptr: u64,
    key: Seq<u8>,
    budget: nat,
    lp: u64,
    i: int,
)
    requires
        image_ok(img),
        leaf_target(img, ptr, key, budget) == Ok::<Option<(u64, int)>, DbErrorView>(Some((lp, i))),
        !(find_walk(img, ptr, key, budget) is Stuck),
        page_at(img, lp) matches Ok(PageView::Leaf { kvs, .. }) && forall|j: int|
            0 <= j < kvs.len() && j != i ==> (#[trigger] kvs[j]).0 != key,
        encode_view(leaf_without(img, lp, i)).len() <= 4096,
    ensures
        find_walk(write_image(img, lp, encode_view(leaf_without(img, lp, i))), ptr, key, budget)
            == Lookup::Found(None),
    decreases budget,
{
    let nv = leaf_without(img, lp, i);
    lemma_leaf_target_leaf(img, ptr, key, budget, lp, i);
    let kvs = page_of(img, lp)->kvs;
    lemma_page_at_valid(img, lp);
    let nkvs = kvs.remove(i);
    assert(valid_view(nv)) by {
        assert forall|j: int| 0 <= j < nkvs.len() implies (#[trigger] nkvs[j]).0.len() <= 12 && nkvs[j].1.len() <= 12 by {
            if j < i {
                assert(nkvs[j] == kvs[j]);
            } else {
                assert(nkvs[j] == kvs[j + 1]);
            }
        }
    }
    crate::btree::disk::lemma_write_then_read(img, lp, nv, ptr);
    if ptr == lp {
        assert forall|j: int| 0 <= j < nkvs.len() implies (#[trigger] nkvs[j]).0 != key by {
            if j < i {
                assert(nkvs[j] == kvs[j]);
            } else {
                assert(nkvs[j] == kvs[j + 1]);
            }
        }
        lemma_first_kv_index_none(nkvs, key);
    } else {
        let keys = page_of(img, ptr)->keys;
        let children = page_of(img, ptr)->children;
        let p = upper_view_pos(keys, key);
        lemma_leaf_target_full(img, ptr, key, budget);
        lemma_remove_then_find(img, children[p - 1], key, (budget - 1) as nat, lp, i);
    }
}

/// A page that decodes is valid.
pub proof fn lemma_page_at_valid(img: Seq<Seq<u8>>, p: u64)
    requires
        page_at(img, p) is Ok,
    ensures
        valid_view(page_of(img, p)),
{
    crate::btree::disk::lemma_decode_page_valid(img[p as int]);
}

/// What a target found is a leaf that has the key at that position, and the page
/// at every step is a full block.
pub proof fn lemma_leaf_target_leaf(
    img: Seq<Seq<u8>>,
    ptr: u64,
    key: Seq<u8>,
    budget: nat,
    lp: u64,
    i: int,
)
    requires
        leaf_target(img, ptr, key, budget) == Ok::<Option<(u64, int)>, DbErrorView>(Some((lp, i))),
    ensures
        page_at(img, lp) matches Ok(PageView::Leaf { kvs, .. }) && 0 <= i < kvs.len() && kvs[i].0
            == key && forall|j: int| 0 <= j < i ==> (#[trigger] kvs[j]).0 != key,
        lp < img.len() && img[lp as int].len() == 4096,
        ptr < img.len() && img[ptr as int].len() == 4096,
        ptr != lp ==> page_at(img, ptr) is Ok && page_of(img, ptr) is Internal,
    decreases budget,
{
    match page_at(img, ptr) {
        Ok(PageView::Internal { keys, children, .. }) => {
            let p = upper_view_pos(keys, key);
            let pos = if p == 0 {
                0
            } else {
                p - 1
            };
            lemma_leaf_target_leaf(img, children[pos], key, (budget - 1) as nat, lp, i);
        },
        Ok(PageView::Leaf { kvs, .. }) => {
            lemma_first_kv_index(kvs, key);
        },
        Err(_) => {},
    }
}

/// When the page at `ptr` is internal and the lookup does not get stuck there, the
/// lookup and the target go on to the same child.
pub proof fn lemma_leaf_target_full(img: Seq<Seq<u8>>, ptr: u64, key: Seq<u8>, budget: nat)
    requires
        leaf_target(img, ptr, key, budget) is Ok,
        !(find_walk(img, ptr, key, budget) is Stuck),
        page_at(img, ptr) matches Ok(PageView::Internal { .. }),
    ensures
        budget > 0,
        key.len() <= 12,
        ({
            let keys = page_of(img, ptr)->keys;
            let children = page_of(img, ptr)->children;
            let p = upper_view_pos(keys, key);
            &&& p > 0
            &&& p - 1 < children.len()
            &&& leaf_target(img, ptr, key, budget) == leaf_target(
                img,
                children[p - 1],
                key,
                (budget - 1) as nat,
            )
            &&& find_walk(img, ptr, key, budget) == find_walk(
                img,
                children[p - 1],
                key,
                (budget - 1) as nat,
            )
        }),
{
    lemma_page_at_valid(img, ptr);
    lemma_upper_view_pos_bound(page_of(img, ptr)->keys, key);
}

/// Where an update finds no entry and the lookup does not get stuck, the lookup
/// finds no entry either.
pub proof fn lemma_target_none_find(img: Seq<Seq<u8>>, ptr: u64, key: Seq<u8>, budget: nat)
    requires
        leaf_target(img, ptr, key, budget) == Ok::<Option<(u64, int)>, DbErrorView>(None),
        !(find_walk(img, ptr, key, budget) is Stuck),
    ensures
        find_walk(img, ptr, key, budget) == Lookup::Found(None),
    decreases budget,
{
    match page_at(img, ptr) {
        Ok(PageView::Internal { keys, children, .. }) => {
            lemma_upper_view_pos_bound(keys, key);
            let p = upper_view_pos(keys, key);
            if p > 0 && p - 1 < children.len() {
                lemma_target_none_find(img, children[p - 1], key, (budget - 1) as nat);
            }
        },
        _ => {},
    }
}

/// The entry that a leaf's search for `key` finds in `kvs`.
pub open spec fn leaf_lookup(kvs: Seq<(Seq<u8>, Seq<u8>)>, key: Seq<u8>) -> Option<(Seq<u8>, Seq<u8>)> {
    match first_kv_index(kvs, key) {
        Some(i) => Some(kvs[i]),
        None => None,
    }
}

/// Rewriting the leaf at `lp` with entries on which the search for `key` finds what
/// it found before leaves every lookup of `key` as it was.
proof fn lemma_leaf_rewrite_keeps(img: Seq<Seq<u8>>, lp: u64, nv: PageView, key: Seq<u8>, ptr: u64, budget: nat)
    requires
        image_ok(img),
        valid_view(nv),
        encode_view(nv).len() <= 4096,
        page_at(img, lp) matches Ok(PageView::Leaf { kvs, .. }) && (nv matches PageView::Leaf {
            kvs: nkvs,
            ..
        } && leaf_lookup(nkvs, key) == leaf_lookup(kvs, key)),
    ensures
        find_walk(write_image(img, lp, encode_view(nv)), ptr, key, budget) == find_walk(img, ptr, key, budget),
    decreases budget,
{
    let w = write_image(img, lp, encode_view(nv));
    crate::btree::disk::lemma_write_then_read(img, lp, nv, ptr);
    if budget > 0 {
        if ptr != lp {
            assert(w[ptr as int] == img[ptr as int] || ptr >= img.len());
            assert(page_at(w, ptr) == page_at(img, ptr));
            match page_at(img, ptr) {
                Ok(PageView::Internal { keys, children, .. }) => {
                    let p = upper_view_pos(keys, key);
                    if key.len() <= 12 && p != 0 && p - 1 < children.len() {
                        lemma_leaf_rewrite_keeps(img, lp, nv, key, children[p - 1], (budget - 1) as nat);
                    }
                },
                _ => {},
            }
        }
    }
}

/// An update of the entry of one key leaves the lookup of every other key as it
/// was.
pub proof fn lemma_update_keeps_others(
    img: Seq<Seq<u8>>,
    ptr: u64,
    key: Seq<u8>,
    val: Seq<u8>,
    budget: nat,
    lp: u64,
    i: int,
    other: Seq<u8>,
    budget2: nat,
)
    requires
        image_ok(img),
        key.len() <= 12,
        val.len() <= 12,
        leaf_target(img, ptr, key, budget) == Ok::<Option<(u64, int)>, DbErrorView>(Some((lp, i))),
        encode_view(leaf_with_update(img, lp, i, (key, val))).len() <= 4096,
        other != key,
    ensures
        find_walk(
            write_image(img, lp, encode_view(leaf_with_update(img, lp, i, (key, val)))),
            ptr,
            other,
            budget2,
        ) == find_walk(img, ptr, other, budget2),
{
    let nv = leaf_with_update(img, lp, i, (key, val));
    lemma_leaf_target_leaf(img, ptr, key, budget, lp, i);
    let kvs = page_of(img, lp)->kvs;
    lemma_page_at_valid(img, lp);
    let nkvs = kvs.update(i, (key, val));
    assert(valid_view(nv)) by {
        assert forall|j: int| 0 <= j < nkvs.len() implies (#[trigger] nkvs[j]).0.len() <= 12 && nkvs[j].1.len() <= 12 by {
            if j != i {
                assert(kvs[j].0.len() <= 12 && kvs[j].1.len() <= 12);
            }
        }
    }
    lemma_first_kv_index(kvs, other);
    match first_kv_index(kvs, other) {
        Some(j) => {
            assert forall|m: int| 0 <= m < j implies (#[trigger] nkvs[m]).0 != other by {
                assert(nkvs[m] == kvs[m] || m == i);
            }
            lemma_first_kv_index_is(nkvs, other, j);
        },
        None => {
            assert forall|m: int| 0 <= m < nkvs.len() implies (#[trigger] nkvs[m]).0 != other by {
                assert(nkvs[m] == kvs[m] || m == i);
            }
            lemma_first_kv_index_none(nkvs, other);
        },
    }
    lemma_leaf_rewrite_keeps(img, lp, nv, other, ptr, budget2);
}

/// A removal of the entry of one key leaves the lookup of every other key as it
/// was.
pub proof fn lemma_remove_keeps_others(
    img: Seq<Seq<u8>>,
    ptr: u64,
    key: Seq<u8>,
    budget: nat,
    lp: u64,
    i: int,
    other: Seq<u8>,
    budget2: nat,
)
    requires
        image_ok(img),
        leaf_target(img, ptr, key, budget) == Ok::<Option<(u64, int)>, DbErrorView>(Some((lp, i))),
        encode_view(leaf_without(img, lp, i)).len() <= 4096,
        other != key,
    ensures
        find_walk(write_image(img, lp, encode_view(leaf_without(img, lp, i))), ptr, other, budget2)
            == find_walk(img, ptr, other, budget2),
{
    let nv = leaf_without(img, lp, i);
    lemma_leaf_target_leaf(img, ptr, key, budget, lp, i);
    let kvs = page_of(img, lp)->kvs;
    lemma_page_at_valid(img, lp);
    let nkvs = kvs.remove(i);
    assert(valid_view(nv)) by {
        assert forall|j: int| 0 <= j < nkvs.len() implies (#[trigger] nkvs[j]).0.len() <= 12 && nkvs[j].1.len() <= 12 by {
            if j < i {
                assert(nkvs[j] == kvs[j]);
            } else {
                assert(nkvs[j] == kvs[j + 1]);
            }
        }
    }
    lemma_first_kv_index(kvs, other);
    match first_kv_index(kvs, other) {
        Some(j) => {
            let jj = if j < i { j } else { j - 1 };
            assert(j != i);
            assert forall|m: int| 0 <= m < jj implies (#[trigger] nkvs[m]).0 != other by {
                if m < i {
                    assert(nkvs[m] == kvs[m]);
                } else {
                    assert(nkvs[m] == kvs[m + 1]);
                }
            }
            if j < i {
                assert(nkvs[jj] == kvs[j]);
            } else {
                assert(nkvs[jj] == kvs[j]);
            }
            lemma_first_kv_index_is(nkvs, other, jj);
        },
        None => {
            assert forall|m: int| 0 <= m < nkvs.len() implies (#[trigger] nkvs[m]).0 != other by {
                if m < i {
                    assert(nkvs[m] == kvs[m]);
                } else {
                    assert(nkvs[m] == kvs[m + 1]);
                }
            }
            lemma_first_kv_index_none(nkvs, other);
        },
    }
    lemma_leaf_rewrite_keeps(img, lp, nv, other, ptr, budget2);
}

/// Rewriting the leaf at `lp` with entries whose keys are sorted and within any
/// bounds that the old ones were keeps every lookup path ordered.
proof fn lemma_leaf_rewrite_keeps_order(
    img: Seq<Seq<u8>>,
    lp: u64,
    nv: PageView,
    key: Seq<u8>,
    ptr: u64,
    budget: nat,
    lo: Option<Seq<u8>>,
    hi: Option<Seq<u8>>,
)
    requires
        image_ok(img),
        valid_view(nv),
        encode_view(nv).len() <= 4096,
        page_at(img, lp) matches Ok(PageView::Leaf { .. }),
        nv is Leaf,
        forall|a: Option<Seq<u8>>, b: Option<Seq<u8>>|
            keys_sorted(page_keys(page_of(img, lp))) && #[trigger] keys_within(page_keys(page_of(img, lp)), a, b)
                ==> keys_sorted(page_keys(nv)) && keys_within(page_keys(nv), a, b),
        ordered_walk(img, ptr, key, budget, lo, hi),
    ensures
        ordered_walk(write_image(img, lp, encode_view(nv)), ptr, key, budget, lo, hi),
    decreases budget,
{
    let w = write_image(img, lp, encode_view(nv));
    crate::btree::disk::lemma_write_then_read(img, lp, nv, ptr);
    if ptr == lp {
        assert(keys_within(page_keys(page_of(img, lp)), lo, hi));
    } else {
        assert(w[ptr as int] == img[ptr as int] || ptr >= img.len());
        assert(page_at(w, ptr) == page_at(img, ptr));
        match page_at(img, ptr) {
            Ok(PageView::Internal { keys, children, .. }) => {
                let r = route(keys, key);
                if key.len() <= 12 && keys.len() > 0 && r < children.len() {
                    lemma_leaf_rewrite_keeps_order(
                        img,
                        lp,
                        nv,
                        key,
                        children[r],
                        (budget - 1) as nat,
                        child_lo(keys, key, lo),
                        child_hi(keys, key, hi),
                    );
                }
            },
            _ => {},
        }
    }
}

/// An update of an entry keeps the keys of every page along every lookup path
/// sorted and within their bounds.
pub proof fn lemma_update_keeps_order(
    img: Seq<Seq<u8>>,
    ptr: u64,
    key: Seq<u8>,
    val: Seq<u8>,
    budget: nat,
    lp: u64,
    i: int,
    other: Seq<u8>,
    budget2: nat,
    lo: Option<Seq<u8>>,
    hi: Option<Seq<u8>>,
)
    requires
        image_ok(img),
        key.len() <= 12,
        val.len() <= 12,
        leaf_target(img, ptr, key, budget) == Ok::<Option<(u64, int)>, DbErrorView>(Some((lp, i))),
        encode_view(leaf_with_update(img, lp, i, (key, val))).len() <= 4096,
        ordered_walk(img, ptr, other, budget2, lo, hi),
    ensures
        ordered_walk(
            write_image(img, lp, encode_view(leaf_with_update(img, lp, i, (key, val)))),
            ptr,
            other,
            budget2,
            lo,
            hi,
        ),
{
    let nv = leaf_with_update(img, lp, i, (key, val));
    lemma_leaf_target_leaf(img, ptr, key, budget, lp, i);
    let kvs = page_of(img, lp)->kvs;
    lemma_page_at_valid(img, lp);
    let nkvs = kvs.update(i, (key, val));
    assert(valid_view(nv)) by {
        assert forall|j: int| 0 <= j < nkvs.len() implies (#[trigger] nkvs[j]).0.len() <= 12 && nkvs[j].1.len() <= 12 by {
            if j != i {
                assert(kvs[j].0.len() <= 12 && kvs[j].1.len() <= 12);
            }
        }
    }
    assert(page_keys(nv) =~= page_keys(page_of(img, lp))) by {
        assert forall|j: int| 0 <= j < nkvs.len() implies #[trigger] page_keys(nv)[j] == page_keys(page_of(img, lp))[j] by {
            assert(nkvs[j].0 == kvs[j].0);
        }
    }
    lemma_leaf_rewrite_keeps_order(img, lp, nv, other, ptr, budget2, lo, hi);
}

/// A removal of an entry keeps the keys of every page along every lookup path
/// sorted and within their bounds.
pub proof fn lemma_remove_keeps_order(
    img: Seq<Seq<u8>>,
    ptr: u64,
    key: Seq<u8>,
    budget: nat,
    lp: u64,
    i: int,
    other: Seq<u8>,
    budget2: nat,
    lo: Option<Seq<u8>>,
    hi: Option<Seq<u8>>,
)
    requires
        image_ok(img),
        leaf_target(img, ptr, key, budget) == Ok::<Option<(u64, int)>, DbErrorView>(Some((lp, i))),
        encode_view(leaf_without(img, lp, i)).len() <= 4096,
        ordered_walk(img, ptr, other, budget2, lo, hi),
    ensures
        ordered_walk(write_image(img, lp, encode_view(leaf_without(img, lp, i))), ptr, other, budget2, lo, hi),
{
    let nv = leaf_without(img, lp, i);
    lemma_leaf_target_leaf(img, ptr, key, budget, lp, i);
    let kvs = page_of(img, lp)->kvs;
    lemma_page_at_valid(img, lp);
    let nkvs = kvs.remove(i);
    assert(valid_view(nv)) by {
        assert forall|j: int| 0 <= j < nkvs.len() implies (#[trigger] nkvs[j]).0.len() <= 12 && nkvs[j].1.len() <= 12 by {
            if j < i {
                assert(nkvs[j] == kvs[j]);
            } else {
                assert(nkvs[j] == kvs[j + 1]);
            }
        }
    }
    let ok = page_keys(page_of(img, lp));
    let nk = page_keys(nv);
    assert forall|j: int| 0 <= j < nk.len() implies #[trigger] nk[j] == (if j < i { ok[j] } else { ok[j + 1] }) by {
        if j < i {
            assert(nkvs[j] == kvs[j]);
        } else {
            assert(nkvs[j] == kvs[j + 1]);
        }
    }
    assert forall|a: Option<Seq<u8>>, b: Option<Seq<u8>>|
        keys_sorted(ok) && #[trigger] keys_within(ok, a, b) implies keys_sorted(nk) && keys_within(nk, a, b) by {
        assert forall|x: int, y: int| 0 <= x < y < nk.len() implies sorts_le(#[trigger] nk[x], #[trigger] nk[y]) by {
            let xx = if x < i { x } else { x + 1 };
            let yy = if y < i { y } else { y + 1 };
            assert(nk[x] == ok[xx] && nk[y] == ok[yy]);
        }
        assert forall|x: int| 0 <= x < nk.len() implies (a matches Some(l) ==> sorts_le(l, #[trigger] nk[x])) && (b matches Some(h) ==> sorts_lt(nk[x], h)) by {
            let xx = if x < i { x } else { x + 1 };
            assert(nk[x] == ok[xx]);
        }
    }
    lemma_leaf_rewrite_keeps_order(img, lp, nv, other, ptr, budget2, lo, hi);
}

/// Where an update finds no entry and the insertion's walk does not stop at a page
/// without separators, that walk reaches a leaf without the key.
pub proof fn lemma_target_none_ins(img: Seq<Seq<u8>>, ptr: u64, key: Seq<u8>, budget: nat)
    requires
        leaf_target(img, ptr, key, budget) == Ok::<Option<(u64, int)>, DbErrorView>(None),
        !(super::grow::ins_walk(img, ptr, key, budget) is Stuck),
    ensures
        super::grow::ins_walk(img, ptr, key, budget) == Lookup::Found(None),
    decreases budget,
{
    match page_at(img, ptr) {
        Ok(PageView::Internal { keys, children, .. }) => {
            lemma_upper_view_pos_bound(keys, key);
            let r = route(keys, key);
            if keys.len() > 0 && r < children.len() {
                lemma_target_none_ins(img, children[r], key, (budget - 1) as nat);
            }
        },
        _ => {},
    }
}

} // verus!
