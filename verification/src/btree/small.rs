//! Trees that are one leaf at block 0: what a file holds from its creation until
//! its first split, while it keeps fewer than thirty-two entries. Over such a tree
//! the store behaves as a sorted sequence of entries with distinct keys.

use vstd::prelude::*;
use super::disk::{PageView, encode_view, image_ok, lemma_page_size, lemma_write_then_read, page_at, valid_view, write_image};
use super::grow::{entry_keys, keys_sorted, keys_within, key_within, keys_fit, lemma_leaf_insert, sorts_le};
use super::iterator::{Step, advance, at_end, bytes_lt, entry_at, first_ge, past_end, scan, seek_path, start_path, trim_path};
use super::walk::{
    Lookup, find_walk, first_kv_index, leaf_lookup, leaf_target, leaf_with_update, leaf_without, lemma_first_kv_index,
    lemma_first_kv_index_none, page_of, upper_view_pos,
};
use crate::error::DbErrorView;

verus! {

/// No key occurs in two entries.
pub open spec fn keys_distinct(kvs: Seq<(Seq<u8>, Seq<u8>)>) -> bool {
    forall|i: int, j: int| 0 <= i < j < kvs.len() ==> (#[trigger] kvs[i]).0 != (#[trigger] kvs[j]).0
}

/// The tree is one leaf at block 0 with fewer than thirty-two entries, their keys
/// in order and none twice.
pub open spec fn leaf_tree(img: Seq<Seq<u8>>) -> bool {
    &&& page_at(img, 0) matches Ok(PageView::Leaf { kvs, .. })
    &&& page_of(img, 0)->kvs.len() < 32
    &&& keys_sorted(entry_keys(page_of(img, 0)->kvs))
    &&& keys_distinct(page_of(img, 0)->kvs)
}

/// The entries of the leaf at block 0, in their order.
pub open spec fn tree_entries(img: Seq<Seq<u8>>) -> Seq<(Seq<u8>, Seq<u8>)> {
    page_of(img, 0)->kvs
}

/// Where the entry with `key` stands among `kvs`, if one has it.
pub open spec fn entry_index(kvs: Seq<(Seq<u8>, Seq<u8>)>, key: Seq<u8>) -> Option<int> {
    first_kv_index(kvs, key)
}

/// The entries after a new entry `kv` went in where the search for its key puts it.
pub open spec fn entries_with(kvs: Seq<(Seq<u8>, Seq<u8>)>, kv: (Seq<u8>, Seq<u8>)) -> Seq<(Seq<u8>, Seq<u8>)> {
    kvs.insert(upper_view_pos(entry_keys(kvs), kv.0), kv)
}

/// The values of the entries from position `i` on, up to the first key after `end`.
pub open spec fn values_through(kvs: Seq<(Seq<u8>, Seq<u8>)>, i: int, end: Seq<u8>) -> Seq<Seq<u8>>
    decreases kvs.len() - i,
{
    if i < 0 || i >= kvs.len() {
        Seq::empty()
    } else if bytes_lt(end, kvs[i].0) {
        Seq::empty()
    } else {
        seq![kvs[i].1] + values_through(kvs, i + 1, end)
    }
}

/// In a one-leaf tree a lookup finds the entry with the key, and nothing where no
/// entry has it; it never gets stuck.
pub proof fn lemma_leaf_tree_lookup(img: Seq<Seq<u8>>, key: Seq<u8>)
    requires
        leaf_tree(img),
    ensures
        find_walk(img, 0, key, img.len()) == Lookup::Found(leaf_lookup(tree_entries(img), key)),
        leaf_target(img, 0, key, img.len()) == Ok::<Option<(u64, int)>, DbErrorView>(
            match entry_index(tree_entries(img), key) {
                Some(i) => Some((0u64, i)),
                None => None,
            },
        ),
{
}

/// An entry with a new key goes into a one-leaf tree's entries in order.
pub proof fn lemma_entries_with(kvs: Seq<(Seq<u8>, Seq<u8>)>, key: Seq<u8>, val: Seq<u8>)
    requires
        keys_fit(entry_keys(kvs)),
        keys_sorted(entry_keys(kvs)),
        keys_distinct(kvs),
        key.len() <= 12,
        entry_index(kvs, key) is None,
    ensures
        keys_sorted(entry_keys(entries_with(kvs, (key, val)))),
        keys_distinct(entries_with(kvs, (key, val))),
        entries_with(kvs, (key, val)).len() == kvs.len() + 1,
        entry_index(entries_with(kvs, (key, val)), key) is Some,
{
    let u = upper_view_pos(entry_keys(kvs), key);
    lemma_first_kv_index(kvs, key);
    assert(keys_within(entry_keys(kvs), None, None));
    assert(key_within(key, None, None));
    lemma_leaf_insert(kvs, key, val, None, None);
    let n = kvs.insert(u, (key, val));
    assert forall|i: int, j: int| 0 <= i < j < n.len() implies (#[trigger] n[i]).0 != (#[trigger] n[j]).0 by {
        if i != u && j != u {
            let ii = if i < u { i } else { i - 1 };
            let jj = if j < u { j } else { j - 1 };
            assert(n[i] == kvs[ii] && n[j] == kvs[jj]);
        }
    }
}

/// Changing the value of an entry keeps the keys as they were.
pub proof fn lemma_entries_update(kvs: Seq<(Seq<u8>, Seq<u8>)>, i: int, val: Seq<u8>)
    requires
        0 <= i < kvs.len(),
        keys_sorted(entry_keys(kvs)),
        keys_distinct(kvs),
    ensures
        entry_keys(kvs.update(i, (kvs[i].0, val))) == entry_keys(kvs),
        keys_distinct(kvs.update(i, (kvs[i].0, val))),
{
    let n = kvs.update(i, (kvs[i].0, val));
    assert forall|j: int| 0 <= j < n.len() implies #[trigger] entry_keys(n)[j] == entry_keys(kvs)[j] by {
        assert(n[j].0 == kvs[j].0);
    }
    assert(entry_keys(n) =~= entry_keys(kvs));
    assert forall|a: int, b: int| 0 <= a < b < n.len() implies (#[trigger] n[a]).0 != (#[trigger] n[b]).0 by {
        assert(n[a].0 == kvs[a].0 && n[b].0 == kvs[b].0);
    }
}

/// Removing an entry keeps the other keys in order and distinct.
pub proof fn lemma_entries_remove(kvs: Seq<(Seq<u8>, Seq<u8>)>, i: int)
    requires
        0 <= i < kvs.len(),
        keys_sorted(entry_keys(kvs)),
        keys_distinct(kvs),
    ensures
        keys_sorted(entry_keys(kvs.remove(i))),
        keys_distinct(kvs.remove(i)),
        entry_index(kvs.remove(i), kvs[i].0) is None,
{
    let n = kvs.remove(i);
    let ok = entry_keys(kvs);
    let nk = entry_keys(n);
    assert forall|x: int, y: int| 0 <= x < y < nk.len() implies sorts_le(#[trigger] nk[x], #[trigger] nk[y]) by {
        let xx = if x < i { x } else { x + 1 };
        let yy = if y < i { y } else { y + 1 };
        assert(n[x] == kvs[xx] && n[y] == kvs[yy]);
        assert(nk[x] == ok[xx] && nk[y] == ok[yy]);
    }
    assert forall|a: int, b: int| 0 <= a < b < n.len() implies (#[trigger] n[a]).0 != (#[trigger] n[b]).0 by {
        let aa = if a < i { a } else { a + 1 };
        let bb = if b < i { b } else { b + 1 };
        assert(n[a] == kvs[aa] && n[b] == kvs[bb]);
    }
    assert forall|j: int| 0 <= j < n.len() implies (#[trigger] n[j]).0 != kvs[i].0 by {
        let jj = if j < i { j } else { j + 1 };
        assert(n[j] == kvs[jj]);
    }
    lemma_first_kv_index_none(n, kvs[i].0);
}


/// In a one-leaf tree the page at block 0 decodes with as many entries as it counts.
pub proof fn lemma_leaf_tree_count(img: Seq<Seq<u8>>)
    requires
        leaf_tree(img),
    ensures
        page_of(img, 0)->nkv == tree_entries(img).len(),
        img.len() > 0,
{
    super::walk::lemma_page_at_valid(img, 0);
}

/// In a one-leaf tree a cursor made for `key` starts in the leaf, at the first entry
/// whose key sorts at or after `key`, or past the last entry.
pub proof fn lemma_leaf_tree_start(img: Seq<Seq<u8>>, key: Seq<u8>)
    requires
        leaf_tree(img),
    ensures
        start_path(img, key) == Ok::<(Seq<Step>, bool), DbErrorView>(
            (
                seq![(0u64, first_ge(tree_entries(img), key, tree_entries(img).len() as int), page_of(img, 0))],
                false,
            ),
        ),
{
    lemma_leaf_tree_count(img);
    let kvs = tree_entries(img);
    let v = page_of(img, 0);
    let p = seq![(0u64, first_ge(kvs, key, kvs.len() as int), v)];
    assert(seek_path(img, 0, key, img.len()) == Ok::<Seq<Step>, DbErrorView>(p));
    if past_end(p) {
        assert(at_end(p.last()));
        assert(p.drop_last() =~= Seq::<Step>::empty());
        assert(trim_path(p) == trim_path(p.drop_last()));
        assert(trim_path(p).len() == 0);
    }
}

/// In a one-leaf tree a scan from position `i` collects the values of the entries
/// from there on, up to the first key after `end`, given one move for each entry.
pub proof fn lemma_leaf_tree_scan(img: Seq<Seq<u8>>, i: int, end: Seq<u8>, f: nat)
    requires
        leaf_tree(img),
        0 <= i <= tree_entries(img).len(),
        f >= tree_entries(img).len() - i,
    ensures
        scan(img, seq![(0u64, i, page_of(img, 0))], end, f) == Some(
            Ok::<Seq<Seq<u8>>, DbErrorView>(values_through(tree_entries(img), i, end)),
        ),
    decreases tree_entries(img).len() - i,
{
    lemma_leaf_tree_count(img);
    let kvs = tree_entries(img);
    let v = page_of(img, 0);
    let p = seq![(0u64, i, v)];
    if i < kvs.len() {
        assert(entry_at(p, false) == Some(kvs[i]));
        if !bytes_lt(end, kvs[i].0) {
            if i == kvs.len() - 1 {
                assert(at_end(p.last()));
                assert(p.drop_last() =~= Seq::<Step>::empty());
                assert(trim_path(p) == trim_path(p.drop_last()));
                assert(values_through(kvs, i + 1, end) == Seq::<Seq<u8>>::empty());
                assert(seq![kvs[i].1] + Seq::<Seq<u8>>::empty() =~= seq![kvs[i].1]);
            } else {
                assert(!at_end(p.last()));
                assert(trim_path(p) == p);
                let q = seq![(0u64, i + 1, v)];
                assert(p.drop_last().push((0u64, i + 1, v)) =~= q);
                assert(advance(img, p) == (q, false, Ok::<bool, DbErrorView>(true)));
                lemma_leaf_tree_scan(img, i + 1, end, (f - 1) as nat);
            }
        }
    } else {
        assert(entry_at(p, false) is None);
    }
}


/// Writing the leaf of a one-leaf tree with the value of its entry at `i` changed
/// leaves a one-leaf tree of as many blocks, the entry's value changed.
pub proof fn lemma_leaf_tree_update(img: Seq<Seq<u8>>, i: int, key: Seq<u8>, val: Seq<u8>)
    requires
        leaf_tree(img),
        image_ok(img),
        entry_index(tree_entries(img), key) == Some(i),
        val.len() <= 12,
    ensures
        ({
            let d = encode_view(leaf_with_update(img, 0, i, (key, val)));
            let w = write_image(img, 0, d);
            &&& d.len() <= 4096
            &&& leaf_tree(w)
            &&& w.len() == img.len()
            &&& tree_entries(w) == tree_entries(img).update(i, (key, val))
        }),
{
    let kvs = tree_entries(img);
    super::walk::lemma_page_at_valid(img, 0);
    lemma_first_kv_index(kvs, key);
    let nv = leaf_with_update(img, 0, i, (key, val));
    let nkvs = kvs.update(i, (key, val));
    assert(valid_view(nv)) by {
        assert forall|j: int| 0 <= j < nkvs.len() implies (#[trigger] nkvs[j]).0.len() <= 12 && nkvs[j].1.len() <= 12 by {
            if j != i {
                assert(kvs[j].0.len() <= 12 && kvs[j].1.len() <= 12);
            }
        }
    }
    lemma_page_size(nv);
    lemma_write_then_read(img, 0, nv, 0);
    assert(nkvs == kvs.update(i, (kvs[i].0, val)));
    lemma_entries_update(kvs, i, val);
}

/// Writing the leaf of a one-leaf tree without its entry at `i` leaves a one-leaf
/// tree of as many blocks without that entry.
pub proof fn lemma_leaf_tree_remove(img: Seq<Seq<u8>>, i: int, key: Seq<u8>)
    requires
        leaf_tree(img),
        image_ok(img),
        entry_index(tree_entries(img), key) == Some(i),
    ensures
        ({
            let d = encode_view(leaf_without(img, 0, i));
            let w = write_image(img, 0, d);
            &&& d.len() <= 4096
            &&& leaf_tree(w)
            &&& w.len() == img.len()
            &&& tree_entries(w) == tree_entries(img).remove(i)
            &&& entry_index(tree_entries(w), key) is None
        }),
{
    let kvs = tree_entries(img);
    super::walk::lemma_page_at_valid(img, 0);
    lemma_first_kv_index(kvs, key);
    let nv = leaf_without(img, 0, i);
    let nkvs = kvs.remove(i);
    assert(valid_view(nv)) by {
        assert forall|j: int| 0 <= j < nkvs.len() implies (#[trigger] nkvs[j]).0.len() <= 12 && nkvs[j].1.len() <= 12 by {
            if j < i {
                assert(nkvs[j] == kvs[j]);
            } else {
                assert(nkvs[j] == kvs[j + 1]);
            }
        }
    }
    lemma_page_size(nv);
    lemma_write_then_read(img, 0, nv, 0);
    lemma_entries_remove(kvs, i);
}


/// The first position at or after a key among the first `n` entries is at most `n`.
pub proof fn lemma_first_ge_bound(kvs: Seq<(Seq<u8>, Seq<u8>)>, key: Seq<u8>, n: int)
    requires
        n >= 0,
    ensures
        0 <= first_ge(kvs, key, n) <= n,
    decreases n,
{
    if n > 0 {
        lemma_first_ge_bound(kvs, key, n - 1);
    }
}


/// In a one-leaf tree a cursor at entry `i` moves to entry `i + 1`, the next entry in
/// key order, and runs out after the last entry.
pub proof fn lemma_leaf_tree_next(img: Seq<Seq<u8>>, i: int)
    requires
        leaf_tree(img),
        0 <= i < tree_entries(img).len(),
    ensures
        i + 1 < tree_entries(img).len() ==> {
            &&& advance(img, seq![(0u64, i, page_of(img, 0))]) == (
                seq![(0u64, i + 1, page_of(img, 0))],
                false,
                Ok::<bool, DbErrorView>(true),
            )
            &&& entry_at(seq![(0u64, i + 1, page_of(img, 0))], false) == Some(tree_entries(img)[i + 1])
            &&& sorts_le(tree_entries(img)[i].0, tree_entries(img)[i + 1].0)
            &&& tree_entries(img)[i].0 != tree_entries(img)[i + 1].0
        },
        i + 1 == tree_entries(img).len() ==> advance(img, seq![(0u64, i, page_of(img, 0))]) == (
            Seq::<Step>::empty(),
            true,
            Ok::<bool, DbErrorView>(false),
        ),
{
    lemma_leaf_tree_count(img);
    let kvs = tree_entries(img);
    let v = page_of(img, 0);
    let p = seq![(0u64, i, v)];
    if i + 1 < kvs.len() {
        assert(!at_end(p.last()));
        assert(trim_path(p) == p);
        assert(p.drop_last().push((0u64, i + 1, v)) =~= seq![(0u64, i + 1, v)]);
        assert(entry_keys(kvs)[i] == kvs[i].0 && entry_keys(kvs)[i + 1] == kvs[i + 1].0);
    } else {
        assert(at_end(p.last()));
        assert(p.drop_last() =~= Seq::<Step>::empty());
        assert(trim_path(p) == trim_path(p.drop_last()));
    }
}


/// A one-leaf tree of one block, written out and read back, is the same tree: the
/// store reopened from its bytes holds the same entries.
pub proof fn lemma_leaf_tree_reopen(img: Seq<Seq<u8>>)
    requires
        leaf_tree(img),
        img.len() == 1,
    ensures
        super::disk::blocks_of(super::disk::flatten_blocks(img)) == img,
        leaf_tree(super::disk::blocks_of(super::disk::flatten_blocks(img))),
        tree_entries(super::disk::blocks_of(super::disk::flatten_blocks(img))) == tree_entries(img),
{
    assert forall|i: int| 0 <= i < img.len() implies (#[trigger] img[i]).len() == 4096 by {
        assert(i == 0);
    }
    super::disk::lemma_reopen(img);
}

} // verus!
