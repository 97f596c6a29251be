//! A key-value store over the B+ tree.

use vstd::prelude::*;
use vstd::slice::slice_to_vec;
use crate::btree::disk::{BPTreeDisk, blocks_full, encode_view, page_at, updated, write_image};
use crate::btree::iterator::{
    BTreeIterator, Step, advance, bytes_ge, entry_at, scan, seek_path, start_path,
};
use crate::btree::walk::{Lookup, find_walk, leaf_target, leaf_with_update, target_key_once};
use crate::btree::grow::{ins_walk, ordered_walk, room_on_path, walk_blocks};
use crate::btree::frame::frame_pre;
use crate::btree::small::{entries_with, entry_index, leaf_tree, tree_entries, values_through};
use crate::btree::walk::leaf_lookup;
use crate::btree::iterator::first_ge;
use crate::error::{DbError, DbErrorView, DbResult};
use crate::text::string_of;

verus! {

/// Iterator over key-value pairs
pub struct KVIterator {
    inner: BTreeIterator,
}

impl KVIterator {
    /// The underlying tree iterator.
    pub closed spec fn cursor(&self) -> BTreeIterator {
        self.inner
    }

    pub closed spec fn wf(&self) -> bool {
        self.inner.wf()
    }

    /// Get current key-value pair
    pub fn current(&self) -> (r: Option<(Vec<u8>, Vec<u8>)>)
        requires
            self.wf(),
        ensures
            match entry_at(self.cursor().steps(), self.cursor().done()) {
                Some(kv) => r matches Some(x) && x.0@ == kv.0 && x.1@ == kv.1,
                None => r is None,
            },
    {
        match self.inner.deref() {
            Some(kv) => Some((slice_to_vec(kv.key_bytes()), slice_to_vec(kv.val_bytes()))),
            None => None,
        }
    }

    /// Move to next entry: as `advance` describes, over the store's blocks, unless
    /// the iterator has run out already.
    pub fn next(&mut self, store: &KVStore) -> (r: DbResult<bool>)
        requires
            old(self).wf(),
        ensures
            final(self).wf(),
            old(self).cursor().done() ==> (r matches Ok(false)) && final(self).cursor().done()
                && final(self).cursor().steps() == old(self).cursor().steps(),
            !old(self).cursor().done() ==> ({
                let (steps, done, res) = advance(store.disk().image(), old(self).cursor().steps());
                &&& final(self).cursor().steps() == steps
                &&& final(self).cursor().done() == done
                &&& match res {
                    Ok(b) => r == Ok::<bool, DbError>(b),
                    Err(e) => r matches Err(x) && x@ == e,
                }
            }),
    {
        self.inner.next(&store.tree)
    }

    /// Check if exhausted
    pub fn is_exhausted(&self) -> (r: bool)
        ensures
            r == self.cursor().done(),
    {
        self.inner.is_exhausted()
    }
}

/// A set of `key` on `img` is in order: the separators along the path of its
/// insertion are ordered, and the path does not stop at an internal page with no
/// separator for it, whether the set updates an entry (where a lookup must reach
/// it) or inserts one.
pub open spec fn set_in_order(img: Seq<Seq<u8>>, key: Seq<u8>) -> bool {
    &&& ordered_walk(img, 0, key, img.len(), None, None)
    &&& match leaf_target(img, 0, key, img.len()) {
        Ok(Some(_)) => !(find_walk(img, 0, key, img.len()) is Stuck),
        _ => !(ins_walk(img, 0, key, img.len()) is Stuck),
    }
}

/// How many times a range scan may move the cursor: `u64::MAX` moves, after which
/// the scan stops with the error for cyclic page pointers. A scan that ends does so
/// long before, unless the pages share children so often that it visits more than
/// that many entries.
pub open spec fn range_fuel() -> nat {
    u64::MAX as nat
}

pub struct KVStore {
    tree: BPTreeDisk,
}

impl KVStore {
    /// The tree that holds the entries.
    pub closed spec fn disk(&self) -> BPTreeDisk {
        self.tree
    }

    pub closed spec fn wf(&self) -> bool {
        self.tree.wf()
    }

    /// A store over a tree.
    pub fn from_tree(tree: BPTreeDisk) -> (s: Self)
        ensures
            s.disk() == tree,
            s.wf() == tree.wf(),
    {
        Self { tree }
    }

    /// A store over the bytes of a page file.
    pub fn from_image(image: Vec<u8>) -> (r: DbResult<Self>)
        ensures
            r matches Ok(s) && s.wf() && (if image@.len() == 0 {
                s.disk().image() == write_image(
                    Seq::empty(),
                    0,
                    encode_view(crate::btree::disk::empty_leaf_view()),
                ) && s.disk().next_free() == 1 && s.disk().written_blocks() == seq![0u64]
            } else {
                s.disk().image() == crate::btree::disk::blocks_of(image@) && s.disk().next_free()
                    == image@.len() / 4096 + 1 && s.disk().written_blocks() == Seq::<u64>::empty()
            }),
            image@.len() == 0 ==> (r matches Ok(s) && leaf_tree(s.disk().image()) && s.disk().image().len() == 1
                && tree_entries(s.disk().image()) == Seq::<(Seq<u8>, Seq<u8>)>::empty()),
            image@.len() % 4096 == 0 ==> (r matches Ok(s) && blocks_full(s.disk().image())),
            r matches Ok(s) ==> s.disk().image().len() <= s.disk().next_free(),
    {
        let tree = BPTreeDisk::from_image(image)?;
        Ok(Self { tree })
    }

    /// The bytes of the page file.
    pub fn image_bytes(&self) -> (r: Vec<u8>)
        ensures
            r@ == crate::btree::disk::flatten_blocks(self.disk().image()),
    {
        self.tree.image_bytes()
    }

    /// Hands out the blocks written since the last call, in order.
    pub fn take_written(&mut self) -> (r: Vec<u64>)
        requires
            old(self).wf(),
        ensures
            final(self).wf(),
            r@ == old(self).disk().written_blocks(),
            final(self).disk().image() == old(self).disk().image(),
    {
        self.tree.take_written()
    }

    /// The number of blocks in the file and the block that the next allocation hands
    /// out.
    pub fn block_counts(&self) -> (r: (usize, u64))
        ensures
            r.0 == self.disk().image().len(),
            r.1 == self.disk().next_free(),
    {
        (self.tree.block_count(), self.tree.next_free_block())
    }

    /// The bytes of block `pointer`, if the file has that block.
    pub fn block_bytes(&self, pointer: u64) -> (r: Option<Vec<u8>>)
        ensures
            pointer < self.disk().image().len() ==> (r matches Some(b) && b@ == self.disk().image()[pointer as int]),
            pointer >= self.disk().image().len() ==> r is None,
    {
        self.tree.block_bytes(pointer)
    }

    /// Whether a lookup of `key` gets stuck at an internal page whose first key
    /// sorts after it; `get` is not to be called for such a key.
    pub fn lookup_sticks(&self, key: &[u8]) -> (r: bool)
        requires
            self.wf(),
        ensures
            r == (find_walk(self.disk().image(), 0, key@, self.disk().image().len()) is Stuck),
    {
        self.tree.lookup_sticks(key)
    }

    pub fn get(&mut self, key: &[u8]) -> (r: DbResult<Option<Vec<u8>>>)
        requires
            old(self).wf(),
            !(find_walk(old(self).disk().image(), 0, key@, old(self).disk().image().len()) is Stuck),
        ensures
            *final(self) == *old(self),
            match find_walk(old(self).disk().image(), 0, key@, old(self).disk().image().len()) {
                Lookup::Found(Some(kv)) => r matches Ok(Some(v)) && v@ == kv.1,
                Lookup::Found(None) => r matches Ok(None),
                Lookup::Failed(e) => r matches Err(x) && x@ == e,
                Lookup::Stuck => false,
            },
            leaf_tree(old(self).disk().image()) ==> match leaf_lookup(tree_entries(old(self).disk().image()), key@) {
                Some(kv) => r matches Ok(Some(v)) && v@ == kv.1,
                None => r matches Ok(None),
            },
    {
        proof {
            if leaf_tree(self.disk().image()) {
                crate::btree::small::lemma_leaf_tree_lookup(self.disk().image(), key@);
            }
        }
        match self.tree.find(key)? {
            Some(kv) => {
                let val_bytes = slice_to_vec(kv.val_bytes());
                Ok(Some(val_bytes))
            },
            None => Ok(None),
        }
    }

    /// Get range of values from start_key to end_key (inclusive): those of the
    /// entries from the first key at or after `start_key`, in the order the cursor
    /// visits them, up to the first key after `end_key`. A scan that moves the
    /// cursor more than `range_fuel` times stops with the error for cyclic page
    /// pointers.
    pub fn get_range(&mut self, start_key: &[u8], end_key: &[u8]) -> (r: DbResult<Vec<Vec<u8>>>)
        requires
            old(self).wf(),
        ensures
            *final(self) == *old(self),
            match start_path(old(self).disk().image(), start_key@) {
                Err(e) => r matches Err(x) && x@ == e,
                Ok((p, d)) => match scan(
                    old(self).disk().image(),
                    p,
                    end_key@,
                    range_fuel(),
                ) {
                    Some(Ok(vs)) => r matches Ok(v) && v.deep_view() == vs,
                    Some(Err(e)) => r matches Err(x) && x@ == e,
                    None => r matches Err(x) && x@ == DbErrorView::InvalidFormat(
                        crate::btree::disk::cycle_message(),
                    ),
                },
            },
            leaf_tree(old(self).disk().image()) ==> (r matches Ok(v) && v.deep_view() == values_through(
                tree_entries(old(self).disk().image()),
                first_ge(
                    tree_entries(old(self).disk().image()),
                    start_key@,
                    tree_entries(old(self).disk().image()).len() as int,
                ),
                end_key@,
            )),
    {
        proof {
            let img = self.disk().image();
            if leaf_tree(img) {
                let kvs = tree_entries(img);
                crate::btree::small::lemma_leaf_tree_start(img, start_key@);
                crate::btree::small::lemma_first_ge_bound(kvs, start_key@, kvs.len() as int);
                crate::btree::small::lemma_leaf_tree_scan(img, first_ge(kvs, start_key@, kvs.len() as int), end_key@, range_fuel());
            }
        }
        let ghost img = self.tree.image();
        let mut results: Vec<Vec<u8>> = Vec::new();
        let mut budget: u64 = u64::MAX;
        let ghost f0: nat = budget as nat;
        let mut iter = self.tree.seek_ge(start_key)?;
        let ghost p = iter.steps();
        assert(results.deep_view() =~= Seq::<Seq<u8>>::empty());
        loop
            invariant_except_break
                !iter.done(),
            invariant
                self.wf(),
                self.disk().image() == img,
                *self == *old(self),
                img == old(self).disk().image(),
                start_path(img, start_key@) == Ok::<(Seq<Step>, bool), DbErrorView>((p, false)),
                f0 == range_fuel(),
                leaf_tree(img) ==> scan(img, p, end_key@, f0) == Some(
                    Ok::<Seq<Seq<u8>>, DbErrorView>(values_through(
                        tree_entries(img),
                        first_ge(tree_entries(img), start_key@, tree_entries(img).len() as int),
                        end_key@,
                    )),
                ),
                iter.wf(),
                scan(img, p, end_key@, f0) == match scan(img, iter.steps(), end_key@, budget as nat) {
                    Some(Ok(vs)) => Some(Ok(results.deep_view() + vs)),
                    other => other,
                },
            ensures
                scan(img, p, end_key@, f0) == Some(Ok::<Seq<Seq<u8>>, DbErrorView>(results.deep_view())),
            decreases budget,
        {
            let cur = iter.deref();
            let kv = match cur {
                Some(kv) => kv,
                None => {
                    assert(results.deep_view() + Seq::<Seq<u8>>::empty() =~= results.deep_view());
                    break;
                },
            };
            if !bytes_ge(end_key, kv.key_bytes()) {
                assert(results.deep_view() + Seq::<Seq<u8>>::empty() =~= results.deep_view());
                break;
            }
            if budget == 0 {
                return Err(DbError::InvalidFormat(string_of("Cyclic page pointers")));
            }
            let ghost before = results.deep_view();
            let ghost before_vec = results@;
            let ghost steps = iter.steps();
            let val = slice_to_vec(kv.val_bytes());
            results.push(val);
            assert(results@ == before_vec.push(val));
            assert(results.deep_view() =~= before.push(kv@.1)) by {
                assert forall|i: int| 0 <= i < results@.len() implies results.deep_view()[i] == before.push(kv@.1)[i] by {
                    if i < before_vec.len() {
                        assert(results@[i] == before_vec[i]);
                    }
                }
            }
            let moved = match iter.next(&self.tree) {
                Ok(m) => m,
                Err(e) => {
                    return Err(e);
                },
            };
            if !moved {
                assert(before + seq![kv@.1] =~= results.deep_view());
                break;
            }
            proof {
                if let Some(Ok(vs)) = scan(img, iter.steps(), end_key@, (budget - 1) as nat) {
                    assert(before + (seq![kv@.1] + vs) =~= results.deep_view() + vs);
                }
            }
            budget = budget - 1;
        }
        Ok(results)
    }

    /// Set a key-value pair (insert or update). In a one-leaf tree that has the key
    /// or room for a thirty-first entry, the entries change as a sorted map's do.
    /// Where the lookup of the key does
    /// not get stuck and the separators along its path are in order, a lookup after
    /// a successful set finds the pair. An update of a stored key rewrites its leaf
    /// alone: the lookup of every other key finds what it found before, and the
    /// separators along every lookup path stay as ordered as they were.
    pub fn set(&mut self, key: &[u8], val: &[u8]) -> (r: DbResult<()>)
        requires
            old(self).wf(),
            old(self).disk().next_free() + old(self).disk().image().len() + 2 <= u64::MAX,
        ensures
            final(self).disk().next_free() <= old(self).disk().next_free() + old(self).disk().image().len() + 2,
            final(self).disk().image().len() <= final(self).disk().next_free(),
            blocks_full(old(self).disk().image()) ==> blocks_full(final(self).disk().image()),
            final(self).wf(),
            r is Ok && key@.len() <= 12 && val@.len() <= 12 && set_in_order(old(self).disk().image(), key@)
                ==> find_walk(final(self).disk().image(), 0, key@, final(self).disk().image().len())
                == Lookup::Found(Some((key@, val@))),
            r is Ok && key@.len() <= 12 && val@.len() <= 12 && set_in_order(old(self).disk().image(), key@)
                ==> forall|other: Seq<u8>|
                #[trigger] frame_pre(old(self).disk().image(), 0, key@, other, old(self).disk().image().len(), None, None)
                    ==> find_walk(final(self).disk().image(), 0, other, final(self).disk().image().len())
                    == find_walk(old(self).disk().image(), 0, other, old(self).disk().image().len()),
            key@.len() > 12 ==> (r matches Err(e) && e@ == DbErrorView::KeySizeExceeded(
                key@.len() as usize,
                12,
            )) && final(self).disk().image() == old(self).disk().image(),
            key@.len() <= 12 && val@.len() > 12 ==> (r matches Err(e) && e@
                == DbErrorView::ValueSizeExceed(val@.len() as usize, 12)) && final(self).disk().image()
                == old(self).disk().image(),
            key@.len() <= 12 && val@.len() <= 12 ==> match leaf_target(
                old(self).disk().image(),
                0,
                key@,
                old(self).disk().image().len(),
            ) {
                Err(e) => (r matches Err(x) && x@ == e) && final(self).disk().image() == old(
                    self,
                ).disk().image(),
                Ok(Some((lp, i))) => {
                    let d = encode_view(
                        leaf_with_update(old(self).disk().image(), lp, i, (key@, val@)),
                    );
                    let n = old(self).disk().image().len();
                    let w = write_image(old(self).disk().image(), lp, d);
                    d.len() <= 4096 ==> {
                        &&& r is Ok
                        &&& final(self).disk().image() == w
                        &&& w.len() == n
                        &&& !(find_walk(old(self).disk().image(), 0, key@, n) is Stuck) ==> find_walk(w, 0, key@, n)
                            == Lookup::Found(Some((key@, val@)))
                        &&& forall|other: Seq<u8>|
                            other != key@ ==> #[trigger] find_walk(w, 0, other, n) == find_walk(
                                old(self).disk().image(),
                                0,
                                other,
                                n,
                            )
                        &&& forall|other: Seq<u8>, lo: Option<Seq<u8>>, hi: Option<Seq<u8>>|
                            #[trigger] ordered_walk(old(self).disk().image(), 0, other, n, lo, hi) ==> ordered_walk(
                                w,
                                0,
                                other,
                                n,
                                lo,
                                hi,
                            )
                    }
                },
                Ok(None) => (room_on_path(old(self).disk().image(), 0, key@, old(self).disk().image().len())
                    ==> r is Ok) && (r is Ok && set_in_order(old(self).disk().image(), key@) ==> forall|q: u64|
                    q < old(self).disk().next_free() && !walk_blocks(
                        old(self).disk().image(),
                        0,
                        key@,
                        old(self).disk().image().len(),
                    ).contains(q) && page_at(old(self).disk().image(), q) is Ok ==> #[trigger] page_at(
                        final(self).disk().image(),
                        q,
                    ) == page_at(old(self).disk().image(), q)),
            },
            leaf_tree(old(self).disk().image()) && key@.len() <= 12 && val@.len() <= 12 && (entry_index(
                tree_entries(old(self).disk().image()),
                key@,
            ) is Some || tree_entries(old(self).disk().image()).len() < 31) ==> {
                &&& r is Ok
                &&& leaf_tree(final(self).disk().image())
                &&& final(self).disk().image().len() == old(self).disk().image().len()
                &&& final(self).disk().next_free() == old(self).disk().next_free()
                &&& tree_entries(final(self).disk().image()) == match entry_index(
                    tree_entries(old(self).disk().image()),
                    key@,
                ) {
                    Some(i) => tree_entries(old(self).disk().image()).update(i, (key@, val@)),
                    None => entries_with(tree_entries(old(self).disk().image()), (key@, val@)),
                }
            },
    {
        let ghost img0 = self.tree.image();
        let ghost n0 = img0.len();
        proof {
            self.tree.lemma_wf_image();
        }
        // Try to update first
        if !self.tree.set(key, val)? {
            proof {
                if key@.len() <= 12 && val@.len() <= 12 && set_in_order(img0, key@) {
                    crate::btree::walk::lemma_target_none_ins(img0, 0, key@, n0);
                }
            }
            // If update failed, insert
            self.tree.insert(key, val)?;
        } else {
            proof {
                if key@.len() <= 12 && val@.len() <= 12 {
                    if let Ok(Some((lp, i))) = leaf_target(img0, 0, key@, n0) {
                        let d = encode_view(leaf_with_update(img0, lp, i, (key@, val@)));
                        if d.len() <= 4096 {
                            let w = write_image(img0, lp, d);
                            crate::btree::walk::lemma_leaf_target_leaf(img0, 0, key@, n0, lp, i);
                            assert(w.len() == n0);
                            if !(find_walk(img0, 0, key@, n0) is Stuck) {
                                crate::btree::walk::lemma_update_then_find(img0, 0, key@, val@, n0, lp, i);
                            }
                            assert forall|other: Seq<u8>| other != key@ implies #[trigger] find_walk(w, 0, other, n0)
                                == find_walk(img0, 0, other, n0) by {
                                crate::btree::walk::lemma_update_keeps_others(img0, 0, key@, val@, n0, lp, i, other, n0);
                            }
                            assert forall|other: Seq<u8>, lo: Option<Seq<u8>>, hi: Option<Seq<u8>>| #[trigger] ordered_walk(
                                img0,
                                0,
                                other,
                                n0,
                                lo,
                                hi,
                            ) implies ordered_walk(w, 0, other, n0, lo, hi) by {
                                crate::btree::walk::lemma_update_keeps_order(img0, 0, key@, val@, n0, lp, i, other, n0, lo, hi);
                            }
                        }
                    }
                }
                if key@.len() <= 12 && val@.len() <= 12 && set_in_order(img0, key@) {
                    if let Ok(Some((lp, i))) = leaf_target(img0, 0, key@, n0) {
                        crate::btree::walk::lemma_update_then_find(img0, 0, key@, val@, n0, lp, i);
                        crate::btree::walk::lemma_leaf_target_leaf(img0, 0, key@, n0, lp, i);
                        assert forall|other: Seq<u8>| #[trigger] frame_pre(img0, 0, key@, other, n0, None, None) implies find_walk(
                            self.tree.image(),
                            0,
                            other,
                            self.tree.image().len(),
                        ) == find_walk(img0, 0, other, n0) by {
                            assert(other != key@);
                            crate::btree::walk::lemma_update_keeps_others(img0, 0, key@, val@, n0, lp, i, other, n0);
                        }
                    }
                }
            }
        }
        Ok(())
    }

    /// Delete a key. The lookup of every other key finds what it found before, the
    /// separators along every lookup path stay as ordered as they were, and where
    /// the lookup of the key does not get stuck and its leaf holds it once, the
    /// lookup finds nothing afterwards.
    pub fn del(&mut self, key: &[u8]) -> (r: DbResult<bool>)
        requires
            old(self).wf(),
        ensures
            final(self).disk().next_free() == old(self).disk().next_free(),
            final(self).disk().image().len() <= final(self).disk().next_free(),
            blocks_full(old(self).disk().image()) ==> blocks_full(final(self).disk().image()),
            final(self).wf(),
            updated(
                old(self).disk(),
                final(self).disk(),
                leaf_target(old(self).disk().image(), 0, key@, old(self).disk().image().len()),
                None,
                r,
            ),
            final(self).disk().image().len() == old(self).disk().image().len(),
            forall|other: Seq<u8>|
                other != key@ ==> #[trigger] find_walk(final(self).disk().image(), 0, other, old(self).disk().image().len())
                    == find_walk(old(self).disk().image(), 0, other, old(self).disk().image().len()),
            forall|other: Seq<u8>, lo: Option<Seq<u8>>, hi: Option<Seq<u8>>|
                #[trigger] ordered_walk(old(self).disk().image(), 0, other, old(self).disk().image().len(), lo, hi)
                    ==> ordered_walk(final(self).disk().image(), 0, other, old(self).disk().image().len(), lo, hi),
            r is Ok && !(find_walk(old(self).disk().image(), 0, key@, old(self).disk().image().len()) is Stuck)
                && target_key_once(old(self).disk().image(), 0, key@, old(self).disk().image().len())
                ==> find_walk(final(self).disk().image(), 0, key@, old(self).disk().image().len())
                == Lookup::Found(None),
            leaf_tree(old(self).disk().image()) ==> match entry_index(tree_entries(old(self).disk().image()), key@) {
                Some(i) => {
                    &&& r matches Ok(true)
                    &&& leaf_tree(final(self).disk().image())
                    &&& tree_entries(final(self).disk().image()) == tree_entries(old(self).disk().image()).remove(i)
                    &&& entry_index(tree_entries(final(self).disk().image()), key@) is None
                },
                None => r matches Ok(false) && final(self).disk().image() == old(self).disk().image(),
            },
    {
        self.tree.del(key)
    }

    /// Create an iterator starting at or after the given key
    pub fn iter_from(&mut self, start_key: &[u8]) -> (r: DbResult<KVIterator>)
        ensures
            *final(self) == *old(self),
            match start_path(old(self).disk().image(), start_key@) {
                Ok((p, d)) => r matches Ok(it) && it.wf() && it.cursor().steps() == p && it.cursor().done()
                    == d,
                Err(e) => r matches Err(x) && x@ == e,
            },
            r matches Ok(it) ==> !it.cursor().done(),
    {
        let inner = self.tree.seek_ge(start_key)?;
        Ok(KVIterator { inner })
    }
}

} // verus!
