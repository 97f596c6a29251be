//! An in-memory B+ tree with small fixed-capacity nodes.

use vstd::multiset::Multiset;
use vstd::prelude::*;

verus! {

pub const INTERNAL_NODE_MAX_KEYS: usize = 8;

/// A node of the in-memory tree.
#[verifier::reject_recursive_types(V)]
pub enum Node<V> {
    Internal(InternalNode<V>),
    Leaf(LeafNode<V>),
}

/// What inserting into a subtree gives back: the subtree, and the new right
/// sibling with its separator key when the subtree split.
#[verifier::reject_recursive_types(V)]
pub struct InsertResult<V> {
    pub left_node: Box<Node<V>>,
    pub split_info: Option<SplitInfo<V>>,
}

#[verifier::reject_recursive_types(V)]
pub struct SplitInfo<V> {
    pub promoted_key: usize,
    pub right_node: Box<Node<V>>,
}

/// An internal node: `len` separator keys, each with the child whose smallest key
/// it was when it was added.
#[verifier::reject_recursive_types(V)]
pub struct InternalNode<V> {
    pub len: usize,
    pub keys: Vec<usize>,
    pub children: Vec<Box<Node<V>>>,
}

/// A leaf: `len` keys with their values, in key order.
#[verifier::reject_recursive_types(V)]
pub struct LeafNode<V> {
    pub len: usize,
    pub keys: Vec<usize>,
    pub values: Vec<V>,
    pub next: Option<Box<LeafNode<V>>>,
}

/// The keys are in ascending order.
pub open spec fn sorted(keys: Seq<usize>) -> bool {
    forall|i: int, j: int| 0 <= i < j < keys.len() ==> keys[i] <= keys[j]
}

/// The number of keys that are at or before `key`: where `key` goes after its equals.
pub open spec fn upper_bound(keys: Seq<usize>, key: usize) -> int
    decreases keys.len(),
{
    if keys.len() == 0 {
        0
    } else if keys.last() <= key {
        keys.len() as int
    } else {
        upper_bound(keys.drop_last(), key)
    }
}

pub proof fn lemma_upper_bound(keys: Seq<usize>, key: usize)
    requires
        sorted(keys),
    ensures
        0 <= upper_bound(keys, key) <= keys.len(),
        forall|i: int| 0 <= i < upper_bound(keys, key) ==> keys[i] <= key,
        forall|i: int| upper_bound(keys, key) <= i < keys.len() ==> keys[i] > key,
    decreases keys.len(),
{
    if keys.len() > 0 {
        let t = keys.drop_last();
        lemma_upper_bound(t, key);
        if keys.last() <= key {
            assert forall|i: int| 0 <= i < keys.len() implies keys[i] <= key by {
                if i < keys.len() - 1 {
                    assert(keys[i] <= keys[keys.len() - 1]);
                }
            }
        } else {
            assert forall|i: int| 0 <= i < upper_bound(keys, key) implies keys[i] <= key by {
                assert(keys[i] == t[i]);
            }
            assert forall|i: int| upper_bound(keys, key) <= i < keys.len() implies keys[i] > key by {
                if i < keys.len() - 1 {
                    assert(keys[i] == t[i]);
                }
            }
        }
    }
}

/// Inserting where `upper_bound` points keeps sorted keys sorted.
pub proof fn lemma_insert_sorted(keys: Seq<usize>, key: usize)
    requires
        sorted(keys),
    ensures
        sorted(keys.insert(upper_bound(keys, key), key)),
{
    lemma_upper_bound(keys, key);
}

/// Binary search for the number of keys at or before `key` among the first `len`.
fn find_key_pos(keys: &Vec<usize>, len: usize, key: usize) -> (r: usize)
    requires
        len <= keys@.len(),
        sorted(keys@.take(len as int)),
    ensures
        r == upper_bound(keys@.take(len as int), key),
{
    let ghost s = keys@.take(len as int);
    proof {
        lemma_upper_bound(s, key);
    }
    let mut left: usize = 0;
    let mut right: usize = len;
    while left < right
        invariant
            s == keys@.take(len as int),
            len <= keys@.len(),
            0 <= left <= right <= len,
            left <= upper_bound(s, key) <= right,
            0 <= upper_bound(s, key) <= s.len(),
            forall|i: int| 0 <= i < upper_bound(s, key) ==> s[i] <= key,
            forall|i: int| upper_bound(s, key) <= i < s.len() ==> s[i] > key,
        decreases right - left,
    {
        let mid = left + (right - left) / 2;
        assert(s[mid as int] == keys@[mid as int]);
        if key < keys[mid] {
            right = mid;
        } else {
            left = mid + 1;
        }
    }
    left
}

impl<V> LeafNode<V> {
    /// Counts match and the keys are in order.
    pub open spec fn wf(&self) -> bool {
        &&& self.len == self.keys@.len()
        &&& self.len == self.values@.len()
        &&& sorted(self.keys@)
    }

    /// The (key, value) pairs of the leaf, in order.
    pub open spec fn entries(&self) -> Seq<(usize, V)> {
        Seq::new(self.len as nat, |i: int| (self.keys@[i], self.values@[i]))
    }

    pub fn new() -> (l: Self)
        ensures
            l.wf(),
            l.len == 0,
            l.next is None,
    {
        Self { len: 0, keys: Vec::new(), values: Vec::new(), next: None }
    }

    pub fn find_key_pos(&self, key: usize) -> (r: usize)
        requires
            self.wf(),
        ensures
            r == upper_bound(self.keys@, key),
    {
        assert(self.keys@.take(self.len as int) =~= self.keys@);
        find_key_pos(&self.keys, self.len, key)
    }

    /// Inserts after the keys at or before `key`; tells whether the leaf is full.
    pub fn insert(&mut self, key: usize, value: V) -> (full: bool)
        requires
            old(self).wf(),
            old(self).len < INTERNAL_NODE_MAX_KEYS,
        ensures
            final(self).wf(),
            final(self).len == old(self).len + 1,
            final(self).next == old(self).next,
            final(self).entries() == old(self).entries().insert(
                upper_bound(old(self).keys@, key),
                (key, value),
            ),
            final(self).keys@ == old(self).keys@.insert(upper_bound(old(self).keys@, key), key),
            final(self).values@ == old(self).values@.insert(upper_bound(old(self).keys@, key), value),
            full == (final(self).len >= INTERNAL_NODE_MAX_KEYS),
    {
        let pos = self.find_key_pos(key);
        proof {
            lemma_upper_bound(self.keys@, key);
            lemma_insert_sorted(self.keys@, key);
        }
        self.keys.insert(pos, key);
        self.values.insert(pos, value);
        self.len = self.len + 1;
        assert(self.entries() =~= old(self).entries().insert(pos as int, (key, value)));
        self.len >= INTERNAL_NODE_MAX_KEYS
    }

    /// Moves the upper half into a new leaf; gives its first key and the leaf.
    pub fn split(&mut self) -> (r: (usize, Box<Node<V>>))
        requires
            old(self).wf(),
            old(self).len >= 1,
        ensures
            final(self).wf(),
            final(self).len == old(self).len / 2,
            final(self).next is None,
            final(self).keys@ == old(self).keys@.take((old(self).len / 2) as int),
            final(self).values@ == old(self).values@.take((old(self).len / 2) as int),
            *r.1 matches Node::Leaf(right) && right.values@ == old(self).values@.skip((old(self).len / 2) as int),
            *r.1 matches Node::Leaf(right) && right.wf() && right.len == old(self).len - old(self).len / 2
                && right.next == old(self).next && r.0 == right.keys@[0]
                && right.keys@ == old(self).keys@.skip((old(self).len / 2) as int)
                && final(self).entries() + right.entries() == old(self).entries(),
    {
        let split_point = self.len / 2;
        let key_to_promote = self.keys[split_point];
        let right_keys = self.keys.split_off(split_point);
        let right_values = self.values.split_off(split_point);
        let right_len = self.len - split_point;
        self.len = split_point;
        let next = self.next.take();
        let right = LeafNode { keys: right_keys, values: right_values, next, len: right_len };
        assert(self.entries() + right.entries() =~= old(self).entries());
        (key_to_promote, Box::new(Node::Leaf(right)))
    }
}

impl<V> InternalNode<V> {
    pub fn new() -> (n: Self)
        ensures
            n.len == 0,
            n.keys@ == Seq::<usize>::empty(),
            n.children@ == Seq::<Box<Node<V>>>::empty(),
    {
        Self { len: 0, keys: Vec::new(), children: Vec::new() }
    }

    pub fn find_key_pos(&self, key: usize) -> (r: usize)
        requires
            self.len == self.keys@.len(),
            sorted(self.keys@),
        ensures
            r == upper_bound(self.keys@, key),
    {
        assert(self.keys@.take(self.len as int) =~= self.keys@);
        find_key_pos(&self.keys, self.len, key)
    }

    /// Inserts a separator key with its child after the keys at or before it; tells
    /// whether the node is full.
    pub fn insert(&mut self, key: usize, node: Box<Node<V>>) -> (full: bool)
        requires
            old(self).len == old(self).keys@.len(),
            old(self).len == old(self).children@.len(),
            sorted(old(self).keys@),
            old(self).len < INTERNAL_NODE_MAX_KEYS,
        ensures
            final(self).len == old(self).len + 1,
            final(self).len == final(self).keys@.len(),
            final(self).len == final(self).children@.len(),
            sorted(final(self).keys@),
            final(self).keys@ == old(self).keys@.insert(upper_bound(old(self).keys@, key), key),
            final(self).children@ == old(self).children@.insert(
                upper_bound(old(self).keys@, key),
                node,
            ),
            full == (final(self).len >= INTERNAL_NODE_MAX_KEYS),
    {
        let pos = self.find_key_pos(key);
        proof {
            lemma_upper_bound(self.keys@, key);
            lemma_insert_sorted(self.keys@, key);
        }
        self.keys.insert(pos, key);
        self.children.insert(pos, node);
        self.len = self.len + 1;
        self.len >= INTERNAL_NODE_MAX_KEYS
    }

    /// Moves the upper half into a new internal node; gives its first key and the node.
    pub fn split(&mut self) -> (r: (usize, Box<Node<V>>))
        requires
            old(self).len == old(self).keys@.len(),
            old(self).len == old(self).children@.len(),
            old(self).len >= 1,
        ensures
            final(self).len == old(self).len / 2,
            final(self).keys@ == old(self).keys@.take((old(self).len / 2) as int),
            final(self).children@ == old(self).children@.take((old(self).len / 2) as int),
            *r.1 matches Node::Internal(right) && right.len == old(self).len - old(self).len / 2
                && right.keys@ == old(self).keys@.skip((old(self).len / 2) as int) && right.children@ == old(self).children@.skip((old(self).len / 2) as int) && r.0 == right.keys@[0],
    {
        let split_point = self.len / 2;
        let key_to_promote = self.keys[split_point];
        let right_keys = self.keys.split_off(split_point);
        let right_children = self.children.split_off(split_point);
        let right_len = self.len - split_point;
        self.len = split_point;
        let right = InternalNode { keys: right_keys, children: right_children, len: right_len };
        (key_to_promote, Box::new(Node::Internal(right)))
    }
}

/// Number of keys a node holds.
pub open spec fn node_len<V>(n: Node<V>) -> usize {
    match n {
        Node::Leaf(l) => l.len,
        Node::Internal(i) => i.len,
    }
}

/// The first key of a node.
pub open spec fn first_key<V>(n: Node<V>) -> usize {
    match n {
        Node::Leaf(l) => l.keys@[0],
        Node::Internal(i) => i.keys@[0],
    }
}

/// Shape of a node: counts agree, keys are sorted, no node is full, an internal
/// node has at least one child, and so on down the tree.
pub open spec fn node_wf<V>(n: Node<V>) -> bool
    decreases n,
{
    match n {
        Node::Leaf(l) => l.wf() && l.len < INTERNAL_NODE_MAX_KEYS,
        Node::Internal(i) => {
            &&& i.len == i.keys@.len()
            &&& i.len == i.children@.len()
            &&& sorted(i.keys@)
            &&& 1 <= i.len < INTERNAL_NODE_MAX_KEYS
            &&& children_wf(i.children@)
        },
    }
}

/// Every node of the sequence is well formed.
pub open spec fn children_wf<V>(s: Seq<Box<Node<V>>>) -> bool
    decreases s,
{
    if s.len() == 0 {
        true
    } else {
        children_wf(s.drop_last()) && node_wf(*s.last())
    }
}

/// The (key, value) pairs stored in the leaves under a node.
pub open spec fn bag<V>(n: Node<V>) -> Multiset<(usize, V)>
    decreases n,
{
    match n {
        Node::Leaf(l) => l.entries().to_multiset(),
        Node::Internal(i) => children_bag(i.children@),
    }
}

/// The (key, value) pairs stored under a sequence of nodes.
pub open spec fn children_bag<V>(s: Seq<Box<Node<V>>>) -> Multiset<(usize, V)>
    decreases s,
{
    if s.len() == 0 {
        Multiset::empty()
    } else {
        children_bag(s.drop_last()).add(bag(*s.last()))
    }
}

proof fn lemma_children_concat<V>(a: Seq<Box<Node<V>>>, b: Seq<Box<Node<V>>>)
    ensures
        children_bag(a + b) == children_bag(a).add(children_bag(b)),
        children_wf(a + b) == (children_wf(a) && children_wf(b)),
    decreases b.len(),
{
    if b.len() == 0 {
        assert(a + b =~= a);
        assert(children_bag(a).add(Multiset::empty()) =~= children_bag(a));
    } else {
        lemma_children_concat(a, b.drop_last());
        assert((a + b).drop_last() =~= a + b.drop_last());
        assert(children_bag(a).add(children_bag(b.drop_last())).add(bag(*b.last())) =~= children_bag(
            a,
        ).add(children_bag(b.drop_last()).add(bag(*b.last()))));
    }
}

proof fn lemma_children_single<V>(x: Box<Node<V>>)
    ensures
        children_bag(seq![x]) == bag(*x),
        children_wf(seq![x]) == node_wf(*x),
{
    let e = Seq::<Box<Node<V>>>::empty();
    assert(seq![x].drop_last() =~= e);
    assert(seq![x].last() == x);
    assert(children_bag(e) == Multiset::<(usize, V)>::empty());
    assert(children_wf(e));
    assert(Multiset::<(usize, V)>::empty().add(bag(*x)) =~= bag(*x));
}

/// Replacing the node at `i` replaces its pairs and keeps the others.
proof fn lemma_children_update<V>(s: Seq<Box<Node<V>>>, i: int, x: Box<Node<V>>)
    requires
        0 <= i < s.len(),
    ensures
        children_bag(s.update(i, x)).add(bag(*s[i])) == children_bag(s).add(bag(*x)),
        children_wf(s) ==> node_wf(*s[i]),
        children_wf(s) && node_wf(*x) ==> children_wf(s.update(i, x)),
{
    let pre = s.take(i);
    let post = s.skip(i + 1);
    assert(s =~= pre + seq![s[i]] + post);
    assert(s.update(i, x) =~= pre + seq![x] + post);
    lemma_children_concat(pre + seq![s[i]], post);
    lemma_children_concat(pre, seq![s[i]]);
    lemma_children_concat(pre + seq![x], post);
    lemma_children_concat(pre, seq![x]);
    lemma_children_single(s[i]);
    lemma_children_single(x);
    assert(children_bag(s.update(i, x)).add(bag(*s[i])) =~= children_bag(s).add(bag(*x)));
}

/// Inserting a node at `i` adds its pairs.
proof fn lemma_children_insert<V>(s: Seq<Box<Node<V>>>, i: int, x: Box<Node<V>>)
    requires
        0 <= i <= s.len(),
    ensures
        children_bag(s.insert(i, x)) == children_bag(s).add(bag(*x)),
        children_wf(s) && node_wf(*x) ==> children_wf(s.insert(i, x)),
{
    let pre = s.take(i);
    let post = s.skip(i);
    assert(s =~= pre + post);
    assert(s.insert(i, x) =~= pre + seq![x] + post);
    lemma_children_concat(pre + seq![x], post);
    lemma_children_concat(pre, seq![x]);
    lemma_children_concat(pre, post);
    lemma_children_single(x);
    assert(children_bag(s.insert(i, x)) =~= children_bag(s).add(bag(*x)));
}

/// A part `c` of a whole is traded for `n`, and `n` together with `r` is `c` with
/// one more element `x`: the rest together with `r` is the whole with `x`.
proof fn lemma_trade_part<A>(
    u: Multiset<A>,
    c: Multiset<A>,
    b: Multiset<A>,
    n: Multiset<A>,
    r: Multiset<A>,
    x: A,
)
    requires
        u.add(c) == b.add(n),
        n.add(r) == c.insert(x),
    ensures
        u.add(r) == b.insert(x),
{
    broadcast use vstd::multiset::group_multiset_axioms;

    assert forall|y: A| #[trigger] u.add(r).count(y) == b.insert(x).count(y) by {
        assert(u.add(c).count(y) == b.add(n).count(y));
        assert(n.add(r).count(y) == c.insert(x).count(y));
        assert(u.add(c).count(y) == u.count(y) + c.count(y));
        assert(b.add(n).count(y) == b.count(y) + n.count(y));
        assert(n.add(r).count(y) == n.count(y) + r.count(y));
        assert(u.add(r).count(y) == u.count(y) + r.count(y));
        if x == y {
            vstd::multiset::lemma_insert_increases_count_by_1(c, x);
            vstd::multiset::lemma_insert_increases_count_by_1(b, x);
        } else {
            vstd::multiset::lemma_insert_other_elements_unchanged(c, x, y);
            vstd::multiset::lemma_insert_other_elements_unchanged(b, x, y);
        }
    }
    assert(u.add(r) =~= b.insert(x));
}

/// Splitting a sequence of nodes in two splits their pairs.
proof fn lemma_children_split<V>(s: Seq<Box<Node<V>>>, k: int)
    requires
        0 <= k <= s.len(),
    ensures
        children_bag(s.take(k)).add(children_bag(s.skip(k))) == children_bag(s),
        children_wf(s) ==> children_wf(s.take(k)) && children_wf(s.skip(k)),
{
    assert(s =~= s.take(k) + s.skip(k));
    lemma_children_concat(s.take(k), s.skip(k));
}

/// The node is a leaf with these keys and values.
pub open spec fn leaf_is<V>(n: Node<V>, keys: Seq<usize>, values: Seq<V>) -> bool {
    n matches Node::Leaf(l) && l.len == keys.len() && l.keys@ == keys && l.values@ == values
}

/// The node is an internal node with these keys and children.
pub open spec fn internal_is<V>(n: Node<V>, keys: Seq<usize>, children: Seq<Box<Node<V>>>) -> bool {
    n matches Node::Internal(i) && i.len == keys.len() && i.keys@ == keys && i.children@ == children
}

/// The child that an insertion of `key` into the internal node `i` goes to: the one
/// at the position of the first key above `key`, or the last.
pub open spec fn child_index<V>(i: InternalNode<V>, key: usize) -> int {
    let u = upper_bound(i.keys@, key);
    if u < i.len - 1 {
        u
    } else {
        i.len - 1
    }
}

/// What an internal node `i` becomes after its child at `ci` became `cl`, with
/// `cs` the child's new right sibling and its first key, if it split: the sibling
/// goes in after the keys at or before its key, and a node that fills up splits at
/// its middle.
pub open spec fn parent_after<V>(
    i: InternalNode<V>,
    ci: int,
    cl: Node<V>,
    cs: Option<(usize, Node<V>)>,
    left: Node<V>,
    split: Option<(usize, Node<V>)>,
) -> bool {
    let c1 = i.children@.update(ci, Box::new(cl));
    match cs {
        None => internal_is(left, i.keys@, c1) && split is None,
        Some((p, r)) => {
            let u = upper_bound(i.keys@, p);
            let ks = i.keys@.insert(u, p);
            let cs2 = c1.insert(u, Box::new(r));
            let h = ks.len() / 2;
            if ks.len() >= INTERNAL_NODE_MAX_KEYS {
                &&& internal_is(left, ks.take(h as int), cs2.take(h as int))
                &&& split matches Some((q, rn)) && q == ks[h as int] && internal_is(
                    rn,
                    ks.skip(h as int),
                    cs2.skip(h as int),
                )
            } else {
                internal_is(left, ks, cs2) && split is None
            }
        },
    }
}

/// What inserting (`key`, `value`) into the subtree `node` gives: the node that
/// takes its place (`left`) and, when it split, the new right sibling with its first
/// key (`split`). A leaf takes the pair after the keys at or before `key` and, when
/// it fills up, keeps the first half and hands the second to a new leaf; an
/// internal node inserts into the child at `child_index` and takes in that child's
/// new sibling.
pub open spec fn ins_rel<V>(
    node: Node<V>,
    key: usize,
    value: V,
    left: Node<V>,
    split: Option<(usize, Node<V>)>,
) -> bool
    decreases node,
{
    match node {
        Node::Leaf(l) => {
            let u = upper_bound(l.keys@, key);
            let ks = l.keys@.insert(u, key);
            let vs = l.values@.insert(u, value);
            let h = ks.len() / 2;
            if ks.len() >= INTERNAL_NODE_MAX_KEYS {
                &&& leaf_is(left, ks.take(h as int), vs.take(h as int))
                &&& left->Leaf_0.next is None
                &&& split matches Some((p, r)) && p == ks[h as int] && leaf_is(r, ks.skip(h as int), vs.skip(h as int))
                    && r->Leaf_0.next == l.next
            } else {
                &&& leaf_is(left, ks, vs)
                &&& left->Leaf_0.next == l.next
                &&& split is None
            }
        },
        Node::Internal(i) => {
            let ci = child_index(i, key);
            0 <= ci < i.children@.len() && exists|cl: Node<V>, cs: Option<(usize, Node<V>)>|
                ins_rel(*i.children@[ci], key, value, cl, cs) && #[trigger] parent_after(
                    i,
                    ci,
                    cl,
                    cs,
                    left,
                    split,
                )
        },
    }
}

/// A leaf that took the pair as `ins_rel` describes.
proof fn lemma_leaf_ins<V>(l: LeafNode<V>, key: usize, value: V, left: Node<V>, split: Option<(usize, Node<V>)>)
    requires
        ({
            let u = upper_bound(l.keys@, key);
            let ks = l.keys@.insert(u, key);
            let vs = l.values@.insert(u, value);
            let h = ks.len() / 2;
            if ks.len() >= INTERNAL_NODE_MAX_KEYS {
                &&& leaf_is(left, ks.take(h as int), vs.take(h as int))
                &&& left->Leaf_0.next is None
                &&& split matches Some((p, r)) && p == ks[h as int] && leaf_is(r, ks.skip(h as int), vs.skip(h as int))
                    && r->Leaf_0.next == l.next
            } else {
                &&& leaf_is(left, ks, vs)
                &&& left->Leaf_0.next == l.next
                &&& split is None
            }
        }),
    ensures
        ins_rel(Node::Leaf(l), key, value, left, split),
{
}

/// An internal node whose child took the pair as `ins_rel` describes, and which took
/// in the child's outcome, took the pair as `ins_rel` describes.
proof fn lemma_internal_ins<V>(
    i: InternalNode<V>,
    key: usize,
    value: V,
    ci: int,
    cl: Node<V>,
    cs: Option<(usize, Node<V>)>,
    left: Node<V>,
    split: Option<(usize, Node<V>)>,
)
    requires
        ci == child_index(i, key),
        0 <= ci < i.children@.len(),
        ins_rel(*i.children@[ci], key, value, cl, cs),
        parent_after(i, ci, cl, cs, left, split),
    ensures
        ins_rel(Node::Internal(i), key, value, left, split),
{
    assert(ins_rel(*i.children@[child_index(i, key)], key, value, cl, cs));
    assert(parent_after(i, child_index(i, key), cl, cs, left, split));
}

/// The in-memory B+ tree.
#[verifier::reject_recursive_types(V)]
pub struct BPTree<V> {
    pub root: Option<Box<Node<V>>>,
}

impl<V> BPTree<V> {
    /// The tree has a root and it is well formed.
    pub open spec fn wf(&self) -> bool {
        &&& self.root is Some
        &&& node_wf(*self.root->0)
    }

    /// The (key, value) pairs the tree holds, with their multiplicities.
    pub open spec fn contents(&self) -> Multiset<(usize, V)> {
        match self.root {
            Some(n) => bag(*n),
            None => Multiset::empty(),
        }
    }

    /// A tree whose root is an empty leaf.
    pub fn new() -> (t: Self)
        ensures
            t.wf(),
            t.contents() == Multiset::<(usize, V)>::empty(),
            t.root matches Some(n) && *n matches Node::Leaf(l) && l.len == 0,
    {
        let t = Self { root: Some(Box::new(Node::Leaf(LeafNode::new()))) };
        assert(Seq::<(usize, V)>::empty().to_multiset() =~= Multiset::<(usize, V)>::empty()) by {
            vstd::seq_lib::to_multiset_len(Seq::<(usize, V)>::empty());
            vstd::multiset::lemma_multiset_empty_len(Seq::<(usize, V)>::empty().to_multiset());
        }
        assert(t.contents() =~= Multiset::<(usize, V)>::empty()) by {
            let n = *t.root->0;
            if let Node::Leaf(l) = n {
                assert(l.entries() =~= Seq::<(usize, V)>::empty());
            }
        }
        t
    }

    /// The first key of a node that holds at least one.
    pub fn get_promoted_key(node: &Node<V>) -> (k: usize)
        requires
            node_wf(*node),
            node_len(*node) >= 1,
        ensures
            k == first_key(*node),
    {
        match node {
            Node::Leaf(leaf) => leaf.keys[0],
            Node::Internal(internal) => internal.keys[0],
        }
    }

    /// Adds a (key, value) pair as `ins_rel` describes; a root that splits gets a new
    /// internal root above its two halves, keyed by their first keys.
    pub fn insert(&mut self, key: usize, value: V)
        requires
            old(self).wf(),
        ensures
            final(self).wf(),
            final(self).contents() == old(self).contents().insert((key, value)),
            exists|cl: Node<V>, cs: Option<(usize, Node<V>)>|
                #[trigger] ins_rel(*old(self).root->0, key, value, cl, cs) && match cs {
                    None => *final(self).root->0 == cl,
                    Some((p, r)) => internal_is(
                        *final(self).root->0,
                        seq![first_key(cl), p],
                        seq![Box::new(cl), Box::new(r)],
                    ),
                },
    {
        let root = self.root.take().unwrap();
        let res = self.insert_recursive(root, key, value);
        let ghost cl = *res.left_node;
        let ghost cs: Option<(usize, Node<V>)> = match res.split_info {
            Some(ref si) => Some((si.promoted_key, *si.right_node)),
            None => None,
        };
        let InsertResult { left_node: new_root, split_info } = res;
        match split_info {
            Some(SplitInfo { promoted_key, right_node }) => {
                let mut internal = InternalNode::new();
                let left_min_key = Self::get_promoted_key(&new_root);
                internal.keys.push(left_min_key);
                internal.keys.push(promoted_key);
                let ghost l = new_root;
                let ghost r = right_node;
                internal.children.push(new_root);
                internal.children.push(right_node);
                internal.len = 2;
                proof {
                    assert(internal.keys@ =~= seq![first_key(cl), promoted_key]);
                    assert(internal.children@ =~= seq![l] + seq![r]);
                    assert(cs == Some((promoted_key, *r)));
                    assert(internal.children@ =~= seq![Box::new(cl), Box::new(*r)]);
                    assert(internal_is(Node::Internal(internal), seq![first_key(cl), promoted_key], seq![Box::new(cl), Box::new(*r)]));
                    lemma_children_concat(seq![l], seq![r]);
                    lemma_children_single(l);
                    lemma_children_single(r);
                }
                self.root = Some(Box::new(Node::Internal(internal)));
            },
            None => {
                self.root = Some(new_root);
            },
        }
    }

    /// Inserts into the subtree under `node`. A leaf takes the pair after the keys
    /// at or before it; an internal node passes it to the child at the position of
    /// the first key above it, or to its last child, and takes in the separator of
    /// a child that split. A node that fills up splits in two.
    pub fn insert_recursive(&mut self, node: Box<Node<V>>, key: usize, value: V) -> (r: InsertResult<V>)
        requires
            node_wf(*node),
        ensures
            *final(self) == *old(self),
            node_wf(*r.left_node),
            r.split_info is None ==> bag(*r.left_node) == bag(*node).insert((key, value)),
            r.split_info matches Some(si) ==> node_wf(*si.right_node),
            r.split_info is Some ==> node_len(*r.left_node) >= 1,
            r.split_info matches Some(si) ==> node_len(*si.right_node) >= 1,
            r.split_info matches Some(si) ==> first_key(*r.left_node) <= si.promoted_key,
            r.split_info matches Some(si) ==> si.promoted_key == first_key(*si.right_node),
            r.split_info matches Some(si) ==> node_len(*r.left_node) == 4 && node_len(*si.right_node) == 4,
            r.split_info matches Some(si) ==> bag(*r.left_node).add(bag(*si.right_node)) == bag(
                *node,
            ).insert((key, value)),
            ins_rel(
                *node,
                key,
                value,
                *r.left_node,
                match r.split_info {
                    Some(si) => Some((si.promoted_key, *si.right_node)),
                    None => None,
                },
            ),
        decreases node,
    {
        match *node {
            Node::Leaf(mut leaf) => {
                let ghost l0 = leaf;
                let ghost before = leaf.entries();
                let ghost keys_before = leaf.keys@;
                let needs_split = leaf.insert(key, value);
                proof {
                    lemma_upper_bound(keys_before, key);
                    vstd::seq_lib::to_multiset_insert(
                        before,
                        upper_bound(keys_before, key),
                        (key, value),
                    );
                }
                assert(bag(Node::Leaf(leaf)) == bag(*node).insert((key, value)));
                if needs_split {
                    let ghost full = leaf;
                    let (promoted_key, right_node) = leaf.split();
                    let ghost rn = *right_node;
                    proof {
                        if let Node::Leaf(right) = rn {
                            vstd::seq_lib::lemma_multiset_commutative(leaf.entries(), right.entries());
                            assert(leaf.keys@[0] == full.keys@[0]);
                            assert(right.keys@[0] == full.keys@[(full.len / 2) as int]);
                        }
                    }
                    proof {
                        if let Node::Leaf(right) = rn {
                            let h = (full.len / 2) as int;
                            assert(right.keys@[0] == full.keys@.skip(h)[0]);
                            lemma_leaf_ins(l0, key, value, Node::Leaf(leaf), Some((promoted_key, rn)));
                        }
                    }
                    return InsertResult {
                        left_node: Box::new(Node::Leaf(leaf)),
                        split_info: Some(SplitInfo { promoted_key, right_node }),
                    };
                }
                proof {
                    lemma_leaf_ins(l0, key, value, Node::Leaf(leaf), None);
                }
                InsertResult { left_node: Box::new(Node::Leaf(leaf)), split_info: None }
            },
            Node::Internal(mut internal) => {
                let ghost orig = internal;
                let ghost before = internal.children@;
                let pos = internal.find_key_pos(key);
                let last = internal.len - 1;
                let child_idx = if pos < last {
                    pos
                } else {
                    last
                };
                let child = internal.children.remove(child_idx);
                proof {
                    lemma_children_update(before, child_idx as int, child);
                    assert(decreases_to!(node => child));
                }
                let ghost child_before = child;
                let res = self.insert_recursive(child, key, value);
                let ghost cs: Option<(usize, Node<V>)> = match res.split_info {
                    Some(ref si) => Some((si.promoted_key, *si.right_node)),
                    None => None,
                };
                let InsertResult { left_node: updated_child, split_info } = res;
                let ghost uc = updated_child;
                internal.children.insert(child_idx, updated_child);
                proof {
                    assert(internal.children@ =~= before.update(child_idx as int, uc));
                    lemma_children_update(before, child_idx as int, uc);
                }
                match split_info {
                    Some(SplitInfo { promoted_key, right_node }) => {
                        let ghost mid = internal.children@;
                        let ghost rn = right_node;
                        let ghost p = upper_bound(internal.keys@, promoted_key);
                        proof {
                            lemma_upper_bound(internal.keys@, promoted_key);
                        }
                        let needs_split = internal.insert(promoted_key, right_node);
                        proof {
                            broadcast use vstd::multiset::group_multiset_axioms;

                            lemma_children_insert(mid, p, rn);
                            lemma_trade_part(
                                children_bag(mid),
                                bag(*child_before),
                                children_bag(before),
                                bag(*uc),
                                bag(*rn),
                                (key, value),
                            );
                        }
                        if needs_split {
                            let ghost full = internal.children@;
                            let ghost full_keys = internal.keys@;
                            let (promoted_key, right_internal) = internal.split();
                            let ghost ri = *right_internal;
                            proof {
                                broadcast use vstd::multiset::group_multiset_axioms;

                                lemma_children_split(full, (full.len() / 2) as int);
                                assert(internal.keys@[0] == full_keys[0]);
                                if let Node::Internal(rin) = ri {
                                    assert(bag(Node::Internal(internal)).add(bag(ri)) == children_bag(
                                        full,
                                    ));
                                }
                            }
                            proof {
                                assert(child_index(orig, key) == child_idx as int);
                                lemma_internal_ins(
                                    orig,
                                    key,
                                    value,
                                    child_idx as int,
                                    *uc,
                                    cs,
                                    Node::Internal(internal),
                                    Some((promoted_key, *right_internal)),
                                );
                            }
                            return InsertResult {
                                left_node: Box::new(Node::Internal(internal)),
                                split_info: Some(SplitInfo { promoted_key, right_node: right_internal }),
                            };
                        }
                    },
                    None => {
                        proof {
                            broadcast use vstd::multiset::group_multiset_axioms;

                            assert(bag(*uc).add(Multiset::empty()) =~= bag(*uc));
                            lemma_trade_part(
                                children_bag(internal.children@),
                                bag(*child_before),
                                children_bag(before),
                                bag(*uc),
                                Multiset::empty(),
                                (key, value),
                            );
                            assert(children_bag(internal.children@).add(Multiset::empty())
                                =~= children_bag(internal.children@));
                        }
                    },
                }
                proof {
                    assert(child_index(orig, key) == child_idx as int);
                    lemma_internal_ins(orig, key, value, child_idx as int, *uc, cs, Node::Internal(internal), None);
                }
                InsertResult { left_node: Box::new(Node::Internal(internal)), split_info: None }
            },
        }
    }
}

} // verus!
