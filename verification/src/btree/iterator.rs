//! A cursor over the entries of the tree: a stack of pages from the root down
//! to a leaf, with a position in each.

use vstd::prelude::*;
use crate::error::{DbError, DbErrorView, DbResult};
use crate::text::string_of;
use super::disk::{BPTreeDisk, PageNode, PageView, cycle_message, page_at};
use super::page::internal::{KeyEntry, key_views};
use super::page::leaf::{KeyVal, kv_views};
use super::walk::upper_view_pos;

verus! {

/// `a` sorts before `b` as byte strings: by the first differing byte, and a proper
/// prefix before the longer string.
pub open spec fn bytes_lt(a: Seq<u8>, b: Seq<u8>) -> bool
    decreases a.len(),
{
    if a.len() == 0 {
        b.len() > 0
    } else if b.len() == 0 {
        false
    } else if a[0] != b[0] {
        a[0] < b[0]
    } else {
        bytes_lt(a.drop_first(), b.drop_first())
    }
}

/// `bytes_lt` is the lexicographic order of byte strings, the order std gives
/// slices of bytes: `a` sorts before `b` exactly when `a` is a proper prefix of
/// `b`, or, at the first position where the two differ, `a` holds the smaller byte.
pub proof fn law_bytes_lt_lexicographic(a: Seq<u8>, b: Seq<u8>)
    ensures
        bytes_lt(a, b) <==> ((a.len() < b.len() && a =~= b.subrange(0, a.len() as int)) || exists|i: int|
            0 <= i < a.len() && i < b.len() && a.subrange(0, i) =~= b.subrange(0, i) && #[trigger] a[i] < b[i]),
    decreases a.len(),
{
    if a.len() == 0 {
    } else if b.len() == 0 {
    } else if a[0] != b[0] {
        if a[0] < b[0] {
            assert(a.subrange(0, 0) =~= b.subrange(0, 0));
            assert(a[0] < b[0]);
        } else {
            assert forall|i: int| 0 <= i < a.len() && i < b.len() && a.subrange(0, i) =~= b.subrange(0, i) implies !(a[i] < b[i]) by {
                if i > 0 {
                    assert(a.subrange(0, i)[0] == b.subrange(0, i)[0]);
                }
            }
            if a.len() < b.len() && a =~= b.subrange(0, a.len() as int) {
                assert(a[0] == b.subrange(0, a.len() as int)[0]);
            }
        }
    } else {
        let a1 = a.drop_first();
        let b1 = b.drop_first();
        law_bytes_lt_lexicographic(a1, b1);
        // the prefix case
        if a.len() < b.len() && a =~= b.subrange(0, a.len() as int) {
            assert forall|k: int| 0 <= k < a1.len() implies #[trigger] a1[k] == b1.subrange(0, a1.len() as int)[k] by {
                assert(a[k + 1] == b.subrange(0, a.len() as int)[k + 1]);
            }
            assert(a1 =~= b1.subrange(0, a1.len() as int));
        }
        if a1.len() < b1.len() && a1 =~= b1.subrange(0, a1.len() as int) {
            assert forall|k: int| 0 <= k < a.len() implies #[trigger] a[k] == b.subrange(0, a.len() as int)[k] by {
                if k > 0 {
                    assert(a[k] == a1[k - 1]);
                    assert(a1[k - 1] == b1.subrange(0, a1.len() as int)[k - 1]);
                }
            }
            assert(a =~= b.subrange(0, a.len() as int));
        }
        // the differing-byte case
        if exists|i: int| 0 <= i < a.len() && i < b.len() && a.subrange(0, i) =~= b.subrange(0, i) && #[trigger] a[i] < b[i] {
            let i = choose|i: int| 0 <= i < a.len() && i < b.len() && a.subrange(0, i) =~= b.subrange(0, i) && #[trigger] a[i] < b[i];
            assert(i > 0);
            assert forall|k: int| 0 <= k < i - 1 implies #[trigger] a1.subrange(0, i - 1)[k] == b1.subrange(0, i - 1)[k] by {
                assert(a.subrange(0, i)[k + 1] == b.subrange(0, i)[k + 1]);
            }
            assert(a1.subrange(0, i - 1) =~= b1.subrange(0, i - 1));
            assert(a1[i - 1] < b1[i - 1]);
        }
        if exists|i: int| 0 <= i < a1.len() && i < b1.len() && a1.subrange(0, i) =~= b1.subrange(0, i) && #[trigger] a1[i] < b1[i] {
            let i = choose|i: int| 0 <= i < a1.len() && i < b1.len() && a1.subrange(0, i) =~= b1.subrange(0, i) && #[trigger] a1[i] < b1[i];
            assert forall|k: int| 0 <= k < i + 1 implies #[trigger] a.subrange(0, i + 1)[k] == b.subrange(0, i + 1)[k] by {
                if k > 0 {
                    assert(a1.subrange(0, i)[k - 1] == b1.subrange(0, i)[k - 1]);
                }
            }
            assert(a.subrange(0, i + 1) =~= b.subrange(0, i + 1));
            assert(a[i + 1] < b[i + 1]);
        }
    }
}

/// Whether `a` sorts after or equal to `b` as byte strings.
pub fn bytes_ge(a: &[u8], b: &[u8]) -> (r: bool)
    ensures
        r == !bytes_lt(a@, b@),
{
    let mut i: usize = 0;
    assert(a@.skip(0) =~= a@);
    assert(b@.skip(0) =~= b@);
    while i < a.len() && i < b.len()
        invariant
            i <= a@.len(),
            i <= b@.len(),
            bytes_lt(a@, b@) == bytes_lt(a@.skip(i as int), b@.skip(i as int)),
        decreases a@.len() - i,
    {
        assert(a@.skip(i as int)[0] == a@[i as int]);
        assert(b@.skip(i as int)[0] == b@[i as int]);
        if a[i] != b[i] {
            return a[i] > b[i];
        }
        assert(a@.skip(i as int).drop_first() =~= a@.skip(i + 1));
        assert(b@.skip(i as int).drop_first() =~= b@.skip(i + 1));
        i = i + 1;
    }
    i == b.len()
}

/// The first of the first `n` pairs whose key sorts at or after `key`, or `n`.
pub open spec fn first_ge(kvs: Seq<(Seq<u8>, Seq<u8>)>, key: Seq<u8>, n: int) -> int
    decreases n,
{
    if n <= 0 {
        0
    } else if first_ge(kvs, key, n - 1) < n - 1 {
        first_ge(kvs, key, n - 1)
    } else if !bytes_lt(kvs[n - 1].0, key) {
        n - 1
    } else {
        n
    }
}

/// One step of a path: a block, a position in its page, and the page.
pub type Step = (u64, int, PageView);

/// The path that seeking `key` from the page at `ptr` builds, visiting at most
/// `budget` pages: in each internal page the child that a lookup follows (the
/// first one when the key sorts before all), in the leaf the first entry at or
/// after the key.
pub open spec fn seek_path(img: Seq<Seq<u8>>, ptr: u64, key: Seq<u8>, budget: nat) -> Result<
    Seq<Step>,
    DbErrorView,
>
    decreases budget,
{
    if budget == 0 {
        Err(DbErrorView::InvalidFormat(cycle_message()))
    } else {
        match page_at(img, ptr) {
            Err(e) => Err(e),
            Ok(v) => match v {
                PageView::Internal { keys, children, .. } => {
                    if key.len() > 12 {
                        Err(DbErrorView::KeySizeExceeded(key.len() as usize, 12))
                    } else {
                        let p = upper_view_pos(keys, key);
                        let pos = if p == 0 {
                            0
                        } else {
                            p - 1
                        };
                        if pos < children.len() {
                            match seek_path(img, children[pos], key, (budget - 1) as nat) {
                                Ok(rest) => Ok(seq![(ptr, pos, v)] + rest),
                                Err(e) => Err(e),
                            }
                        } else {
                            Ok(seq![(ptr, pos, v)])
                        }
                    }
                },
                PageView::Leaf { nkv, kvs, .. } => Ok(seq![(ptr, first_ge(kvs, key, nkv as int), v)]),
            },
        }
    }
}

/// The path from the page at `ptr` down its first children to a leaf, visiting at
/// most `budget` pages, and the error that stopped it, if any: the steps taken
/// before an error stay on the path.
pub open spec fn first_leaf_path(img: Seq<Seq<u8>>, ptr: u64, budget: nat) -> (
    Seq<Step>,
    Option<DbErrorView>,
)
    decreases budget,
{
    if budget == 0 {
        (Seq::empty(), Some(DbErrorView::InvalidFormat(cycle_message())))
    } else {
        match page_at(img, ptr) {
            Err(e) => (Seq::empty(), Some(e)),
            Ok(v) => match v {
                PageView::Internal { children, .. } => if children.len() > 0 {
                    let (rest, err) = first_leaf_path(img, children[0], (budget - 1) as nat);
                    (seq![(ptr, 0int, v)] + rest, err)
                } else {
                    (seq![(ptr, 0int, v)], None)
                },
                PageView::Leaf { .. } => (seq![(ptr, 0int, v)], None),
            },
        }
    }
}

/// Going down to the first leaf takes the first child of every internal page: the
/// path starts at `ptr`, every step holds the page read at its block with position
/// 0, each step after the first is the first child of the page before it, and a
/// path that met no error ends at a leaf or at an internal page without children.
pub proof fn law_first_leaf_path(img: Seq<Seq<u8>>, ptr: u64, budget: nat)
    ensures
        ({
            let (p, err) = first_leaf_path(img, ptr, budget);
            &&& p.len() > 0 ==> p[0].0 == ptr
            &&& forall|i: int| 0 <= i < p.len() ==> (#[trigger] p[i]).1 == 0 && page_at(img, p[i].0) == Ok::<
                PageView,
                DbErrorView,
            >(p[i].2)
            &&& forall|i: int|
                0 <= i < p.len() - 1 ==> (#[trigger] p[i]).2 is Internal && p[i].2->Internal_children.len() > 0
                    && p[i + 1].0 == p[i].2->Internal_children[0]
            &&& err is None ==> p.len() > 0 && (p.last().2 is Internal ==> p.last().2->Internal_children.len()
                == 0)
        }),
    decreases budget,
{
    if budget > 0 {
        if let Ok(v) = page_at(img, ptr) {
            if let PageView::Internal { children, .. } = v {
                if children.len() > 0 {
                    law_first_leaf_path(img, children[0], (budget - 1) as nat);
                    let (rest, err) = first_leaf_path(img, children[0], (budget - 1) as nat);
                    let p = seq![(ptr, 0int, v)] + rest;
                    assert forall|i: int| 0 <= i < p.len() implies (#[trigger] p[i]).1 == 0 && page_at(img, p[i].0) == Ok::<
                        PageView,
                        DbErrorView,
                    >(p[i].2) by {
                        if i > 0 {
                            assert(p[i] == rest[i - 1]);
                        }
                    }
                    assert forall|i: int| 0 <= i < p.len() - 1 implies (#[trigger] p[i]).2 is Internal
                        && p[i].2->Internal_children.len() > 0 && p[i + 1].0 == p[i].2->Internal_children[0] by {
                        if i > 0 {
                            assert(p[i] == rest[i - 1]);
                            assert(p[i + 1] == rest[i]);
                        } else {
                            assert(p[1] == rest[0]);
                        }
                    }
                    if err is None {
                        assert(p.last() == rest.last());
                    }
                }
            }
        }
    }
}

/// The path of a successful seek, or no steps.
pub open spec fn path_or_empty(r: Result<Seq<Step>, DbErrorView>) -> Seq<Step> {
    match r {
        Ok(p) => p,
        Err(_) => Seq::empty(),
    }
}

/// The step has no position after its own: an empty page, or the last position.
pub open spec fn at_end(step: Step) -> bool {
    match step.2 {
        PageView::Internal { nkey, .. } => nkey == 0 || step.1 >= nkey - 1,
        PageView::Leaf { nkv, .. } => nkv == 0 || step.1 >= nkv - 1,
    }
}

/// The path without the steps at its end that have no position after their own.
pub open spec fn trim_path(path: Seq<Step>) -> Seq<Step>
    decreases path.len(),
{
    if path.len() == 0 {
        path
    } else if at_end(path.last()) {
        trim_path(path.drop_last())
    } else {
        path
    }
}

/// The entry that a path points at.
pub open spec fn entry_at(path: Seq<Step>, exhausted: bool) -> Option<(Seq<u8>, Seq<u8>)> {
    if exhausted || path.len() == 0 {
        None
    } else {
        match path.last().2 {
            PageView::Leaf { kvs, .. } => if 0 <= path.last().1 < kvs.len() {
                Some(kvs[path.last().1])
            } else {
                None
            },
            _ => None,
        }
    }
}

/// One move of a cursor that has not run out, as `BTreeIterator::next` makes it:
/// the new path, whether the cursor ran out, and what the call returns.
pub open spec fn advance(img: Seq<Seq<u8>>, steps: Seq<Step>) -> (Seq<Step>, bool, Result<bool, DbErrorView>) {
    let t = trim_path(steps);
    if t.len() == 0 {
        (Seq::empty(), true, Ok(false))
    } else {
        let last = t.last();
        let moved = t.drop_last().push((last.0, last.1 + 1, last.2));
        match last.2 {
            PageView::Internal { children, .. } => {
                let (rest, err) = first_leaf_path(img, children[last.1 + 1], img.len());
                (
                    moved + rest,
                    false,
                    match err {
                        None => Ok(true),
                        Some(e) => Err(e),
                    },
                )
            },
            PageView::Leaf { .. } => (moved, false, Ok(true)),
        }
    }
}

/// The path ends in a leaf at a position past its last entry.
pub open spec fn past_end(p: Seq<Step>) -> bool {
    p.len() > 0 && p.last().2 is Leaf && p.last().1 >= p.last().2->Leaf_nkv
}

/// Where a cursor made for `key` starts, and whether it has run out (it never has):
/// at the first entry of the leaf that seeking `key` reaches whose key sorts at or
/// after `key`, or, when that leaf has none and a later leaf exists, one move on,
/// at the start of the next leaf; with no later leaf it stays past the end of the
/// leaf, where it points at no entry.
pub open spec fn start_path(img: Seq<Seq<u8>>, key: Seq<u8>) -> Result<(Seq<Step>, bool), DbErrorView> {
    match seek_path(img, 0, key, img.len()) {
        Err(e) => Err(e),
        Ok(p) => if past_end(p) && trim_path(p).len() > 0 {
            let (q, d, r) = advance(img, p);
            match r {
                Err(e) => Err(e),
                Ok(_) => Ok((q, d)),
            }
        } else {
            Ok((p, false))
        },
    }
}

/// The values that a range scan collects from the cursor at `steps` on, up to the
/// first key that sorts after `end`, moving the cursor at most `fuel` times: `None`
/// when that is not enough.
pub open spec fn scan(img: Seq<Seq<u8>>, steps: Seq<Step>, end: Seq<u8>, fuel: nat) -> Option<
    Result<Seq<Seq<u8>>, DbErrorView>,
>
    decreases fuel,
{
    match entry_at(steps, false) {
        None => Some(Ok(Seq::empty())),
        Some(kv) => if bytes_lt(end, kv.0) {
            Some(Ok(Seq::empty()))
        } else if fuel == 0 {
            None
        } else {
            let (next_steps, done, r) = advance(img, steps);
            match r {
                Err(e) => Some(Err(e)),
                Ok(false) => Some(Ok(seq![kv.1])),
                Ok(true) => match scan(img, next_steps, end, (fuel - 1) as nat) {
                    Some(Ok(vs)) => Some(Ok(seq![kv.1] + vs)),
                    other => other,
                },
            }
        },
    }
}

/// A cursor inside a leaf, before its last entry, moves to the next entry of the
/// same leaf.
pub proof fn lemma_next_in_leaf(img: Seq<Seq<u8>>, steps: Seq<Step>)
    requires
        steps.len() > 0,
        steps.last().2 matches PageView::Leaf { nkv, kvs, .. } && nkv == kvs.len() && 0 <= steps.last().1
            < kvs.len() - 1,
    ensures
        ({
            let (p, done, r) = advance(img, steps);
            let i = steps.last().1;
            &&& p == steps.drop_last().push((steps.last().0, i + 1, steps.last().2))
            &&& !done
            &&& r == Ok::<bool, DbErrorView>(true)
            &&& entry_at(p, false) == Some(steps.last().2->Leaf_kvs[i + 1])
        }),
{
    assert(!at_end(steps.last()));
    assert(trim_path(steps) == steps);
}

/// The seek position in a leaf is the first of the first `n` entries whose key does
/// not sort before `key`: every entry before it sorts before `key`, and it is `n`
/// when all of them do.
pub proof fn law_first_ge(kvs: Seq<(Seq<u8>, Seq<u8>)>, key: Seq<u8>, n: int)
    requires
        0 <= n <= kvs.len(),
    ensures
        0 <= first_ge(kvs, key, n) <= n,
        forall|j: int| 0 <= j < first_ge(kvs, key, n) ==> bytes_lt(#[trigger] kvs[j].0, key),
        first_ge(kvs, key, n) < n ==> !bytes_lt(kvs[first_ge(kvs, key, n)].0, key),
    decreases n,
{
    if n > 0 {
        law_first_ge(kvs, key, n - 1);
    }
}

/// Once a scan ends, more fuel gives the same result.
pub proof fn lemma_scan_fuel(img: Seq<Seq<u8>>, steps: Seq<Step>, end: Seq<u8>, f: nat, g: nat)
    requires
        scan(img, steps, end, f) is Some,
        f <= g,
    ensures
        scan(img, steps, end, g) == scan(img, steps, end, f),
    decreases f,
{
    if f > 0 {
        let (next_steps, done, r) = advance(img, steps);
        if r == Ok::<bool, DbErrorView>(true) {
            if let Some(kv) = entry_at(steps, false) {
                if !bytes_lt(end, kv.0) {
                    lemma_scan_fuel(img, next_steps, end, (f - 1) as nat, (g - 1) as nat);
                }
            }
        }
    }
}

/// Path element in the tree traversal
#[derive(Debug, Clone)]
struct PathData {
    pointer: u64,
    position: usize,
    node: PageNode,
}

/// Iterator over B+ tree entries
pub struct BTreeIterator {
    path: Vec<PathData>,
    exhausted: bool,
}

impl BTreeIterator {
    /// The steps of the path, from the root down.
    pub closed spec fn steps(&self) -> Seq<Step> {
        self.path@.map_values(|d: PathData| (d.pointer, d.position as int, d.node@))
    }

    /// Whether the iterator has run out.
    pub closed spec fn done(&self) -> bool {
        self.exhausted
    }

    /// Every page on the path is well formed.
    pub closed spec fn wf(&self) -> bool {
        forall|i: int| 0 <= i < self.path@.len() ==> (#[trigger] self.path@[i]).node.wf()
    }

    /// Create a new iterator starting at or after the given key
    pub fn new(tree: &BPTreeDisk, key: &[u8]) -> (r: DbResult<Self>)
        ensures
            match start_path(tree.image(), key@) {
                Ok((p, d)) => r matches Ok(it) && it.wf() && it.steps() == p && it.done() == d,
                Err(e) => r matches Err(x) && x@ == e,
            },
            r matches Ok(it) ==> !it.done(),
    {
        let mut iterator = Self { path: Vec::new(), exhausted: false };
        assert(iterator.steps() =~= Seq::<Step>::empty());
        iterator.seek(tree, 0, key, tree.block_count())?;
        assert(iterator.steps() =~= Seq::<Step>::empty() + path_or_empty(seek_path(
            tree.image(),
            0,
            key@,
            tree.image().len(),
        )));
        if iterator.at_leaf_end() && iterator.has_later_position() {
            iterator.next(tree)?;
        }
        Ok(iterator)
    }

    /// Whether some step of the path has a position after its own, so that the
    /// cursor can move on.
    fn has_later_position(&self) -> (r: bool)
        ensures
            r == (trim_path(self.steps()).len() > 0),
    {
        let mut i: usize = self.path.len();
        let ghost s = self.steps();
        assert(s.take(i as int) =~= s);
        while i > 0
            invariant
                i <= self.path@.len(),
                s == self.steps(),
                trim_path(s) == trim_path(s.take(i as int)),
            decreases i,
        {
            let d = &self.path[i - 1];
            assert(s.take(i as int).last() == (d.pointer, d.position as int, d.node@));
            let end = match &d.node {
                PageNode::Internal(ipage) => ipage.nkey == 0 || d.position >= ipage.nkey as usize - 1,
                PageNode::Leaf(lpage) => lpage.nkv == 0 || d.position >= lpage.nkv as usize - 1,
            };
            if !end {
                return true;
            }
            assert(s.take(i as int).drop_last() =~= s.take(i - 1));
            i = i - 1;
        }
        false
    }

    /// Whether the path ends in a leaf at a position past its last entry.
    fn at_leaf_end(&self) -> (r: bool)
        ensures
            r == past_end(self.steps()),
    {
        if self.path.len() == 0 {
            return false;
        }
        let last = &self.path[self.path.len() - 1];
        assert(self.steps().last() == (last.pointer, last.position as int, last.node@));
        match &last.node {
            PageNode::Leaf(lpage) => last.position >= lpage.nkv as usize,
            _ => false,
        }
    }

    fn seek(&mut self, tree: &BPTreeDisk, pointer: u64, key: &[u8], budget: usize) -> (r: DbResult<()>)
        requires
            old(self).wf(),
        ensures
            final(self).done() == old(self).done(),
            match seek_path(tree.image(), pointer, key@, budget as nat) {
                Ok(p) => r is Ok && final(self).wf() && final(self).steps() == old(self).steps() + p,
                Err(e) => r matches Err(x) && x@ == e,
            },
        decreases budget,
    {
        if budget == 0 {
            return Err(DbError::InvalidFormat(string_of("Cyclic page pointers")));
        }
        let node = tree.read_page_at_pointer(pointer)?;
        let ghost v = node@;
        let ghost before = self.steps();
        match node {
            PageNode::Internal(ipage) => {
                let key_entry = KeyEntry::new(key)?;
                proof {
                    super::disk::lemma_upper_key_view(ipage.keys@, key_entry, key@);
                    super::page::internal::lemma_upper_key_pos(ipage.keys@, key_entry);
                    assert(ipage.keys@.take(ipage.nkey as int) =~= ipage.keys@);
                }
                let pos = match ipage.find_last_le(&key_entry) {
                    Some(p) => p,
                    None => 0,
                };
                let has_child = pos < ipage.children.len();
                let child = if has_child {
                    ipage.children[pos]
                } else {
                    0
                };
                self.push_step(pointer, pos, PageNode::Internal(ipage));
                if has_child {
                    let ghost mid = self.steps();
                    self.seek(tree, child, key, budget - 1)?;
                    assert(self.steps() =~= before + path_or_empty(seek_path(tree.image(), pointer, key@, budget as nat)));
                }
            },
            PageNode::Leaf(lpage) => {
                let mut i: usize = 0;
                let n = lpage.nkv as usize;
                while i < n
                    invariant
                        i <= n == lpage.nkv <= lpage.kv@.len(),
                        lpage.wf(),
                        first_ge(kv_views(lpage.kv@), key@, i as int) == i,
                    ensures
                        i <= n,
                        first_ge(kv_views(lpage.kv@), key@, i as int) == i,
                        i < n ==> !bytes_lt(kv_views(lpage.kv@)[i as int].0, key@),
                    decreases n - i,
                {
                    assert(lpage.kv@[i as int].wf());
                    if bytes_ge(lpage.kv[i].key_bytes(), key) {
                        break;
                    }
                    i = i + 1;
                }
                assert(first_ge(kv_views(lpage.kv@), key@, n as int) == i) by {
                    lemma_first_ge_stable(kv_views(lpage.kv@), key@, i as int, n as int);
                }
                self.push_step(pointer, i, PageNode::Leaf(lpage));
            },
        }
        Ok(())
    }

    fn push_step(&mut self, pointer: u64, position: usize, node: PageNode)
        requires
            old(self).wf(),
            node.wf(),
        ensures
            final(self).wf(),
            final(self).done() == old(self).done(),
            final(self).steps() == old(self).steps().push((pointer, position as int, node@)),
    {
        let ghost v = node@;
        self.path.push(PathData { pointer, position, node });
        assert(self.steps() =~= old(self).steps().push((pointer, position as int, v)));
    }

    /// Get the current key-value pair
    pub fn deref(&self) -> (r: Option<KeyVal>)
        requires
            self.wf(),
        ensures
            match entry_at(self.steps(), self.done()) {
                Some(kv) => r matches Some(x) && x.wf() && x@ == kv,
                None => r is None,
            },
    {
        if self.exhausted || self.path.len() == 0 {
            return None;
        }
        let last = &self.path[self.path.len() - 1];
        assert(self.steps().last() == (last.pointer, last.position as int, last.node@));
        match &last.node {
            PageNode::Leaf(lpage) => {
                if last.position < lpage.kv.len() {
                    Some(lpage.kv[last.position])
                } else {
                    None
                }
            },
            _ => None,
        }
    }

    /// Move to the next key-value pair
    pub fn next(&mut self, tree: &BPTreeDisk) -> (r: DbResult<bool>)
        requires
            old(self).wf(),
        ensures
            final(self).wf(),
            old(self).done() ==> (r matches Ok(false)) && final(self).steps() == old(self).steps()
                && final(self).done(),
            !old(self).done() && trim_path(old(self).steps()).len() == 0 ==> (r matches Ok(false))
                && final(self).steps() == Seq::<Step>::empty() && final(self).done(),
            !old(self).done() && trim_path(old(self).steps()).len() > 0 ==> ({
                let t = trim_path(old(self).steps());
                let last = t.last();
                let moved = t.drop_last().push((last.0, last.1 + 1, last.2));
                &&& !final(self).done()
                &&& match last.2 {
                    PageView::Internal { children, .. } => {
                        let (rest, err) = first_leaf_path(
                            tree.image(),
                            children[last.1 + 1],
                            tree.image().len(),
                        );
                        &&& final(self).steps() == moved + rest
                        &&& match err {
                            None => r matches Ok(true),
                            Some(e) => r matches Err(x) && x@ == e,
                        }
                    },
                    PageView::Leaf { .. } => final(self).steps() == moved && (r matches Ok(true)),
                }
            }),
    {
        if self.exhausted {
            return Ok(false);
        }
        // Pop up until we can move forward
        loop
            invariant
                self.wf(),
                !self.exhausted,
                !old(self).exhausted,
                trim_path(self.steps()) == trim_path(old(self).steps()),
            ensures
                self.wf(),
                !self.exhausted,
                self.path@.len() > 0,
                self.steps() == trim_path(old(self).steps()),
                !at_end(self.steps().last()),
            decreases self.path@.len(),
        {
            if self.path.len() == 0 {
                self.exhausted = true;
                assert(self.steps() =~= Seq::<Step>::empty());
                return Ok(false);
            }
            let last_idx = self.path.len() - 1;
            let ghost s = self.steps();
            assert(s.last() == (self.path@[last_idx as int].pointer, self.path@[last_idx as int].position as int, self.path@[last_idx as int].node@));
            let end = match &self.path[last_idx].node {
                PageNode::Internal(ipage) => ipage.nkey == 0 || self.path[last_idx].position
                    >= ipage.nkey as usize - 1,
                PageNode::Leaf(lpage) => lpage.nkv == 0 || self.path[last_idx].position
                    >= lpage.nkv as usize - 1,
            };
            if end {
                self.path.pop();
                assert(self.steps() =~= s.drop_last());
            } else {
                break;
            }
        }
        // Move forward at current level
        let last_idx = self.path.len() - 1;
        let ghost t = self.steps();
        let item = self.path.pop().unwrap();
        assert(item.node.wf());
        assert(t.last() == (item.pointer, item.position as int, item.node@));
        let position = item.position + 1;
        let child = match &item.node {
            PageNode::Internal(ipage) => Some(ipage.children[position]),
            PageNode::Leaf(_) => None,
        };
        self.push_step(item.pointer, position, item.node);
        assert(self.steps() =~= t.drop_last().push((t.last().0, t.last().1 + 1, t.last().2)));
        // Navigate down if we're at an internal node
        if let Some(child_pointer) = child {
            self.navigate_to_first_leaf(tree, child_pointer, tree.block_count())?;
        }
        Ok(true)
    }

    fn navigate_to_first_leaf(&mut self, tree: &BPTreeDisk, pointer: u64, budget: usize) -> (r: DbResult<()>)
        requires
            old(self).wf(),
        ensures
            final(self).wf(),
            final(self).done() == old(self).done(),
            ({
                let (rest, err) = first_leaf_path(tree.image(), pointer, budget as nat);
                &&& final(self).steps() == old(self).steps() + rest
                &&& match err {
                    None => r is Ok,
                    Some(e) => r matches Err(x) && x@ == e,
                }
            }),
        decreases budget,
    {
        if budget == 0 {
            assert(old(self).steps() + Seq::<Step>::empty() =~= old(self).steps());
            return Err(DbError::InvalidFormat(string_of("Cyclic page pointers")));
        }
        let node = match tree.read_page_at_pointer(pointer) {
            Ok(n) => n,
            Err(e) => {
                assert(old(self).steps() + Seq::<Step>::empty() =~= old(self).steps());
                return Err(e);
            },
        };
        let ghost v = node@;
        let child = match &node {
            PageNode::Internal(ipage) => if ipage.children.len() > 0 {
                Some(ipage.children[0])
            } else {
                None
            },
            PageNode::Leaf(_) => None,
        };
        self.push_step(pointer, 0, node);
        if let Some(c) = child {
            let ghost mid = self.steps();
            let res = self.navigate_to_first_leaf(tree, c, budget - 1);
            proof {
                let (rest, err) = first_leaf_path(tree.image(), c, (budget - 1) as nat);
                assert(self.steps() =~= old(self).steps() + (seq![(pointer, 0int, v)] + rest));
            }
            res
        } else {
            assert(self.steps() =~= old(self).steps() + seq![(pointer, 0int, v)]);
            Ok(())
        }
    }

    /// Check if iterator is exhausted
    pub fn is_exhausted(&self) -> (r: bool)
        ensures
            r == self.done(),
    {
        self.exhausted
    }
}

pub proof fn lemma_first_ge_stable(kvs: Seq<(Seq<u8>, Seq<u8>)>, key: Seq<u8>, i: int, n: int)
    requires
        0 <= i <= n <= kvs.len(),
        first_ge(kvs, key, i) == i,
        i < n ==> !bytes_lt(kvs[i].0, key),
    ensures
        first_ge(kvs, key, n) == i,
    decreases n - i,
{
    if n > i {
        if n - 1 > i {
            lemma_first_ge_stable(kvs, key, i, n - 1);
        }
    }
}

impl BPTreeDisk {
    /// Create an iterator starting at or after the given key
    pub fn seek_ge(&mut self, key: &[u8]) -> (r: DbResult<BTreeIterator>)
        ensures
            *final(self) == *old(self),
            match start_path(old(self).image(), key@) {
                Ok((p, d)) => r matches Ok(it) && it.wf() && it.steps() == p && it.done() == d,
                Err(e) => r matches Err(x) && x@ == e,
            },
            r matches Ok(it) ==> !it.done(),
    {
        BTreeIterator::new(self, key)
    }
}

} // verus!
