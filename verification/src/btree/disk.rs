//! The B+ tree over a file of fixed-size blocks. The blocks are held here as an
//! image of the file; every block written is recorded so that the caller can write
//! it back to the file in the same order.

use vstd::prelude::*;
use vstd::slice::slice_to_vec;
use crate::codec::{be_bytes, be_value, lemma_be_bytes_len, Cursor};
use crate::error::{DbError, DbErrorView, DbResult, eof, eof_error};
use crate::text::{decimal, push_decimal, push_str, string_of};
use super::page::header::{lemma_header_roundtrip, PageHeader, PageType, PAGE_SIZE};
use super::page::internal::{BTreeInternalPage, KeyEntry, encode_key_views, encode_ptrs,
    key_views, lemma_encode_ptrs_len, lemma_key_views_valid, lemma_keys_roundtrip,
    lemma_decode_keys_valid, lemma_ptrs_roundtrip, valid_key_views};
use super::walk::{find_walk, first_kv_index, leaf_target, leaf_with_update, leaf_without, target_key_once,
    lemma_leaf_target_leaf, lemma_remove_keeps_others, lemma_remove_keeps_order, lemma_remove_then_find,
    lemma_target_none_find,
    lemma_first_kv_index_is, lemma_first_kv_index_none, upper_view_pos, Lookup, page_of};
use super::grow::{child_hi, child_lo, entry_keys, insert_outcome, insert_pre, keys_fit, keys_sorted, keys_within,
    page_keys, lemma_find_from_budget,
    lemma_find_step, lemma_leaf_insert, lemma_leaf_split, lemma_upper_pos_view, lemma_walk_chain,
    lemma_walk_no_return, lemma_root_split_finds, lemma_root_split_reads, reads_alike,
    walk_blocks};
use super::walk::lemma_page_at_valid;
use super::frame::{frame_outcome, frame_pre};
use super::grow::{ordered_walk, room_on_path};
use super::small::{entries_with, entry_index, leaf_tree, tree_entries};
use super::page::leaf::{LEAF_MAX_KV, BTreeLeafPage, KeyVal, encode_kv_views, kv_views, lemma_kv_views_valid,
    lemma_decode_kvs_valid,
    lemma_kvs_roundtrip, valid_kv_views};

verus! {

/// A page as a mathematical value.
pub enum PageView {
    Internal { header: PageHeader, nkey: u16, keys: Seq<Seq<u8>>, children: Seq<u64> },
    Leaf { header: PageHeader, nkv: u16, kvs: Seq<(Seq<u8>, Seq<u8>)> },
}

/// A decoded page of either kind.
#[derive(Debug, Clone)]
pub enum PageNode {
    Internal(BTreeInternalPage),
    Leaf(BTreeLeafPage),
}

pub open spec fn internal_view(p: BTreeInternalPage) -> PageView {
    PageView::Internal {
        header: p.header,
        nkey: p.nkey,
        keys: key_views(p.keys@),
        children: p.children@,
    }
}

pub open spec fn leaf_view(p: BTreeLeafPage) -> PageView {
    PageView::Leaf { header: p.header, nkv: p.nkv, kvs: kv_views(p.kv@) }
}

impl View for PageNode {
    type V = PageView;

    open spec fn view(&self) -> PageView {
        match self {
            PageNode::Internal(p) => internal_view(*p),
            PageNode::Leaf(p) => leaf_view(*p),
        }
    }
}

/// The page is well formed and its header names its kind.
pub open spec fn internal_ok(p: BTreeInternalPage) -> bool {
    p.wf() && p.header.page_type == PageType::Internal
}

/// The page is well formed and its header names its kind.
pub open spec fn leaf_ok(p: BTreeLeafPage) -> bool {
    p.wf() && p.header.page_type == PageType::Leaf
}

impl PageNode {
    pub open spec fn wf(&self) -> bool {
        match self {
            PageNode::Internal(p) => internal_ok(*p),
            PageNode::Leaf(p) => leaf_ok(*p),
        }
    }
}

/// Counts match, every key and value fits, and the header names the kind.
pub open spec fn valid_view(v: PageView) -> bool {
    match v {
        PageView::Internal { header, nkey, keys, children } => {
            &&& header.page_type == PageType::Internal
            &&& nkey == keys.len()
            &&& nkey == children.len()
            &&& valid_key_views(keys)
        },
        PageView::Leaf { header, nkv, kvs } => {
            &&& header.page_type == PageType::Leaf
            &&& nkv == kvs.len()
            &&& valid_kv_views(kvs)
        },
    }
}

/// The bytes of a page on disk.
pub open spec fn encode_view(v: PageView) -> Seq<u8> {
    match v {
        PageView::Internal { header, nkey, keys, children } => header.spec_encode() + be_bytes(
            nkey as nat,
            2,
        ) + encode_key_views(keys) + encode_ptrs(children),
        PageView::Leaf { header, nkv, kvs } => header.spec_encode() + be_bytes(nkv as nat, 2)
            + encode_kv_views(kvs),
    }
}

/// The message of the error for a meta page.
pub open spec fn meta_message() -> Seq<char> {
    "Meta page not supported"@
}

/// The message of the error for a buffer larger than a block.
pub open spec fn data_size_message(n: nat) -> Seq<char> {
    "Data size "@ + decimal(n) + " exceeds page size "@ + decimal(4096)
}

/// The message of the error for a walk that revisits a page.
pub open spec fn cycle_message() -> Seq<char> {
    "Cyclic page pointers"@
}

/// The message of the error for a child position past the children.
pub open spec fn child_position_message() -> Seq<char> {
    "Invalid child position"@
}

/// The page that a block holds, or the error that reading it meets.
pub open spec fn decode_page(block: Seq<u8>) -> Result<PageView, DbErrorView> {
    match PageHeader::spec_decode(block) {
        Err(e) => Err(e@),
        Ok((h, n)) => match h.page_type {
            PageType::Internal => match BTreeInternalPage::spec_decode_body(block.skip(17)) {
                Ok(((nkey, keys, children), _)) => Ok(
                    PageView::Internal { header: h, nkey, keys, children },
                ),
                Err(e) => Err(e),
            },
            PageType::Leaf => match BTreeLeafPage::spec_decode_body(block.skip(17)) {
                Ok(((nkv, kvs), _)) => Ok(PageView::Leaf { header: h, nkv, kvs }),
                Err(e) => Err(e),
            },
            PageType::Meta => Err(DbErrorView::InvalidFormat(meta_message())),
        },
    }
}

/// A block of zeros.
pub open spec fn zero_block() -> Seq<u8> {
    Seq::new(4096, |i: int| 0u8)
}

/// `d` followed by zeros up to the size of a block.
pub open spec fn pad_block(d: Seq<u8>) -> Seq<u8> {
    d + Seq::new((4096 - d.len()) as nat, |i: int| 0u8)
}

/// Every block of the image holds a whole block of bytes.
pub open spec fn blocks_full(img: Seq<Seq<u8>>) -> bool {
    forall|i: int| 0 <= i < img.len() ==> (#[trigger] img[i]).len() == 4096
}

/// Writing at most a block's bytes keeps every block whole.
pub proof fn lemma_write_full(img: Seq<Seq<u8>>, p: u64, d: Seq<u8>)
    requires
        blocks_full(img),
        d.len() <= 4096,
    ensures
        blocks_full(write_image(img, p, d)),
{
    let w = write_image(img, p, d);
    assert forall|i: int| 0 <= i < w.len() implies (#[trigger] w[i]).len() == 4096 by {
        if i == p {
            assert(w[i] == pad_block(d));
        } else if i < img.len() {
            if p >= img.len() {
                assert(w[i] == pad_block(img[i]));
            }
        }
    }
}

/// The page at block `p` of an image, or the error that reading it meets.
pub open spec fn page_at(img: Seq<Seq<u8>>, p: u64) -> Result<PageView, DbErrorView> {
    if p < img.len() && img[p as int].len() == 4096 {
        decode_page(img[p as int])
    } else {
        Err(eof()@)
    }
}

/// The image after `d` is written at block `p`: a file grows with zeros up to the
/// block, and the block holds `d` followed by zeros.
pub open spec fn write_image(img: Seq<Seq<u8>>, p: u64, d: Seq<u8>) -> Seq<Seq<u8>> {
    if p < img.len() {
        img.update(p as int, pad_block(d))
    } else {
        Seq::new(
            (p + 1) as nat,
            |i: int|
                if i == p {
                    pad_block(d)
                } else if i < img.len() {
                    pad_block(img[i])
                } else {
                    zero_block()
                },
        )
    }
}

/// No block is longer than the block size, and only the last may be shorter.
pub open spec fn image_ok(img: Seq<Seq<u8>>) -> bool {
    forall|i: int|
        0 <= i < img.len() ==> (#[trigger] img[i]).len() <= 4096 && (i < img.len() - 1
            ==> img[i].len() == 4096)
}

pub proof fn lemma_node_encoding(node: PageNode)
    requires
        node.wf(),
    ensures
        valid_view(node@),
{
    match node {
        PageNode::Internal(p) => {
            lemma_key_views_valid(p.keys@);
        },
        PageNode::Leaf(p) => {
            lemma_kv_views_valid(p.kv@);
        },
    }
}

/// A page that decodes is valid.
pub proof fn lemma_decode_page_valid(block: Seq<u8>)
    ensures
        decode_page(block) matches Ok(v) ==> valid_view(v),
{
    if let Ok((h, n)) = PageHeader::spec_decode(block) {
        let body = block.skip(17);
        if body.len() >= 2 {
            let n = be_value(body.subrange(0, 2));
            crate::codec::lemma_be_value_bound(body.subrange(0, 2));
            crate::codec::lemma_pow256_values();
            match h.page_type {
                PageType::Internal => {
                    lemma_decode_keys_valid(body.skip(2), n);
                },
                PageType::Leaf => {
                    lemma_decode_kvs_valid(body.skip(2), n);
                },
                PageType::Meta => {},
            }
        }
    }
}

/// Each stored pair takes at most 28 bytes.
proof fn lemma_kv_views_size(s: Seq<(Seq<u8>, Seq<u8>)>)
    requires
        valid_kv_views(s),
    ensures
        encode_kv_views(s).len() <= 28 * s.len(),
    decreases s.len(),
{
    if s.len() > 0 {
        lemma_be_bytes_len(s[0].0.len(), 2);
        lemma_be_bytes_len(s[0].1.len(), 2);
        let t = s.drop_first();
        assert(valid_kv_views(t)) by {
            assert forall|i: int| 0 <= i < t.len() implies (#[trigger] t[i]).0.len() <= 12 && t[i].1.len() <= 12 by {
                assert(t[i] == s[i + 1]);
            }
        }
        lemma_kv_views_size(t);
    }
}

/// Each stored separator takes at most 14 bytes.
proof fn lemma_key_views_size(s: Seq<Seq<u8>>)
    requires
        valid_key_views(s),
    ensures
        encode_key_views(s).len() <= 14 * s.len(),
    decreases s.len(),
{
    if s.len() > 0 {
        lemma_be_bytes_len(s[0].len(), 2);
        let t = s.drop_first();
        assert(valid_key_views(t)) by {
            assert forall|i: int| 0 <= i < t.len() implies (#[trigger] t[i]).len() <= 12 by {
                assert(t[i] == s[i + 1]);
            }
        }
        lemma_key_views_size(t);
    }
}

/// The page holds no more entries than a page of its kind takes.
pub open spec fn page_fits(v: PageView) -> bool {
    match v {
        PageView::Internal { keys, .. } => keys.len() <= 64,
        PageView::Leaf { kvs, .. } => kvs.len() <= 32,
    }
}

/// Two pages that a split leaves: both leaves with 16 entries each, or both
/// internal pages with 32 separators each.
pub open spec fn split_halves(l: PageView, r: PageView) -> bool {
    match (l, r) {
        (PageView::Leaf { kvs: a, .. }, PageView::Leaf { kvs: b, .. }) => a.len() == 16 && b.len() == 16,
        (PageView::Internal { keys: a, .. }, PageView::Internal { keys: b, .. }) => a.len() == 32 && b.len()
            == 32,
        _ => false,
    }
}

/// The leaf `here`, and the new sibling `res` where the leaf split, after `kv` went
/// into the entries `kvs` at the position that the search for its key gives: all
/// the entries stay here, or the first half of them stays and the rest move to the
/// sibling.
pub open spec fn leaf_insert_result(
    kvs: Seq<(Seq<u8>, Seq<u8>)>,
    kv: (Seq<u8>, Seq<u8>),
    here: PageView,
    res: Option<PageView>,
) -> bool {
    let n = kvs.insert(upper_view_pos(entry_keys(kvs), kv.0), kv);
    match res {
        None => here matches PageView::Leaf { kvs: a, .. } && a == n,
        Some(s) => {
            &&& here matches PageView::Leaf { kvs: a, .. } && a == n.take((n.len() / 2) as int)
            &&& s matches PageView::Leaf { kvs: b, .. } && b == n.skip((n.len() / 2) as int)
        },
    }
}

/// The keys of the page `here`, followed by those of the new sibling `res` where
/// there is one, are sorted and sort within the bounds `lo` and `hi`: every key
/// that stays sorts at or before every key that moved.
pub open spec fn halves_in_order(
    here: PageView,
    res: Option<PageView>,
    lo: Option<Seq<u8>>,
    hi: Option<Seq<u8>>,
) -> bool {
    let ks = page_keys(here) + match res {
        Some(n) => page_keys(n),
        None => Seq::empty(),
    };
    keys_sorted(ks) && keys_within(ks, lo, hi)
}

/// A page with at most as many entries as a page holds fits in a block.
pub proof fn lemma_page_size(v: PageView)
    requires
        valid_view(v),
        page_fits(v),
    ensures
        encode_view(v).len() <= 4096,
{
    match v {
        PageView::Internal { header, nkey, keys, children } => {
            lemma_be_bytes_len(header.next_page_pointer as nat, 8);
            lemma_be_bytes_len(header.prev_page_pointer as nat, 8);
            lemma_be_bytes_len(nkey as nat, 2);
            lemma_key_views_size(keys);
            super::page::internal::lemma_encode_ptrs_len(children);
        },
        PageView::Leaf { header, nkv, kvs } => {
            lemma_be_bytes_len(header.next_page_pointer as nat, 8);
            lemma_be_bytes_len(header.prev_page_pointer as nat, 8);
            lemma_be_bytes_len(nkv as nat, 2);
            lemma_kv_views_size(kvs);
        },
    }
}

/// A leaf page with no entries.
pub open spec fn empty_leaf_view() -> PageView {
    PageView::Leaf { header: PageHeader::fresh(PageType::Leaf), nkv: 0, kvs: Seq::empty() }
}

pub proof fn lemma_empty_leaf_size()
    ensures
        encode_view(empty_leaf_view()).len() <= 4096,
        valid_view(empty_leaf_view()),
{
    lemma_be_bytes_len(0, 8);
    lemma_be_bytes_len(0, 2);
    assert(encode_kv_views(Seq::empty()) == Seq::<u8>::empty());
}

/// The blocks of a file: 4096 bytes each, the last one possibly shorter.
pub open spec fn blocks_of(bytes: Seq<u8>) -> Seq<Seq<u8>> {
    Seq::new(
        ((bytes.len() + 4095) / 4096) as nat,
        |i: int|
            bytes.subrange(
                4096 * i,
                if 4096 * i + 4096 <= bytes.len() {
                    4096 * i + 4096
                } else {
                    bytes.len() as int
                },
            ),
    )
}

/// Bytes that come in whole blocks split into whole blocks.
pub proof fn lemma_blocks_of_full(bytes: Seq<u8>)
    requires
        bytes.len() % 4096 == 0,
    ensures
        blocks_full(blocks_of(bytes)),
{
    let b = blocks_of(bytes);
    let n = bytes.len() as int;
    let q = n / 4096;
    assert(n == 4096 * q);
    assert((n + 4095) / 4096 == q);
    assert forall|i: int| 0 <= i < b.len() implies (#[trigger] b[i]).len() == 4096 by {
        assert(4096 * i + 4096 <= 4096 * q) by (nonlinear_arith)
            requires
                0 <= i < q,
        ;
    }
}

pub proof fn lemma_blocks_of(bytes: Seq<u8>)
    ensures
        image_ok(blocks_of(bytes)),
{
    let b = blocks_of(bytes);
    assert forall|i: int| 0 <= i < b.len() implies (#[trigger] b[i]).len() <= 4096 && (i < b.len()
        - 1 ==> b[i].len() == 4096) by {
        assert(4096 * i + 4096 <= 4096 * (b.len() - 1) + 4096);
        if i < b.len() - 1 {
            assert(4096 * (i + 1) + 4096 <= 4096 * b.len());
            assert(4096 * b.len() <= bytes.len() + 4095);
        }
    }
}

/// The bytes of an image: its blocks one after another.
pub open spec fn flatten_blocks(img: Seq<Seq<u8>>) -> Seq<u8>
    decreases img.len(),
{
    if img.len() == 0 {
        Seq::empty()
    } else {
        flatten_blocks(img.drop_last()) + img.last()
    }
}

/// The bytes of an image of full blocks: each block sits at its offset.
proof fn lemma_flatten_full(img: Seq<Seq<u8>>)
    requires
        forall|i: int| 0 <= i < img.len() ==> (#[trigger] img[i]).len() == 4096,
    ensures
        flatten_blocks(img).len() == 4096 * img.len(),
        forall|i: int| 0 <= i < img.len() ==> flatten_blocks(img).subrange(4096 * i, 4096 * i + 4096) == #[trigger] img[i],
    decreases img.len(),
{
    if img.len() > 0 {
        let t = img.drop_last();
        lemma_flatten_full(t);
        let f = flatten_blocks(img);
        assert(f == flatten_blocks(t) + img.last());
        assert forall|i: int| 0 <= i < img.len() implies f.subrange(4096 * i, 4096 * i + 4096) == #[trigger] img[i] by {
            if i < t.len() {
                assert(img[i] == t[i]);
                assert(f.subrange(4096 * i, 4096 * i + 4096) =~= flatten_blocks(t).subrange(4096 * i, 4096 * i + 4096));
            } else {
                assert(f.subrange(4096 * i, 4096 * i + 4096) =~= img.last());
            }
        }
    }
}

/// Reading back the bytes of an image whose blocks are all full (as those that the
/// tree's operations leave, from an empty file, are) gives the same
/// blocks: what `image_bytes` hands out, `from_image` takes back unchanged.
pub proof fn lemma_reopen(img: Seq<Seq<u8>>)
    requires
        blocks_full(img),
    ensures
        blocks_of(flatten_blocks(img)) == img,
{
    lemma_flatten_full(img);
    let f = flatten_blocks(img);
    let b = blocks_of(f);
    assert(b.len() == img.len());
    assert forall|i: int| 0 <= i < img.len() implies b[i] == img[i] by {
        assert(4096 * i + 4096 <= f.len());
    }
    assert(b =~= img);
}

/// `r` is the executable form of lookup outcome `o`.
pub open spec fn found_as(o: Lookup, r: DbResult<Option<KeyVal>>) -> bool {
    match o {
        Lookup::Found(None) => r matches Ok(None),
        Lookup::Found(Some(kv)) => r matches Ok(Some(x)) && x.wf() && x@ == kv,
        Lookup::Failed(e) => r matches Err(x) && x@ == e,
        Lookup::Stuck => false,
    }
}

/// `new` is `old` after `d` was written at block `p`, or unchanged with the size
/// error in `r` when `d` is larger than a block.
pub open spec fn wrote(old: BPTreeDisk, new: BPTreeDisk, p: u64, d: Seq<u8>, r: DbResult<()>) -> bool {
    if d.len() > 4096 {
        &&& r matches Err(e) && e@ == DbErrorView::InvalidFormat(data_size_message(d.len()))
        &&& new.image() == old.image()
        &&& new.next_free() == old.next_free()
        &&& new.written_blocks() == old.written_blocks()
    } else {
        &&& r is Ok
        &&& new.image() == write_image(old.image(), p, d)
        &&& new.next_free() == old.next_free()
        &&& new.written_blocks() == old.written_blocks().push(p)
    }
}

/// `new` is `old` after an update or a removal that `t` describes: with `Some(kv)`
/// the entry at the target is replaced by `kv`, with `None` it is removed.
pub open spec fn updated(
    old: BPTreeDisk,
    new: BPTreeDisk,
    t: Result<Option<(u64, int)>, DbErrorView>,
    kv: Option<(Seq<u8>, Seq<u8>)>,
    r: DbResult<bool>,
) -> bool {
    match t {
        Err(e) => {
            &&& r matches Err(x) && x@ == e
            &&& new.image() == old.image()
            &&& new.next_free() == old.next_free()
            &&& new.written_blocks() == old.written_blocks()
        },
        Ok(None) => {
            &&& r matches Ok(false)
            &&& new.image() == old.image()
            &&& new.next_free() == old.next_free()
            &&& new.written_blocks() == old.written_blocks()
        },
        Ok(Some((lp, i))) => {
            let d = match kv {
                Some(x) => encode_view(leaf_with_update(old.image(), lp, i, x)),
                None => encode_view(leaf_without(old.image(), lp, i)),
            };
            &&& write_effect(old, new, lp, d)
            &&& d.len() > 4096 ==> (r matches Err(e) && e@ == DbErrorView::InvalidFormat(
                data_size_message(d.len()),
            ))
            &&& d.len() <= 4096 ==> (r matches Ok(true))
        },
    }
}

/// `new` is `old` after `d` was written at block `p`, or unchanged when `d` is
/// larger than a block.
pub open spec fn write_effect(old: BPTreeDisk, new: BPTreeDisk, p: u64, d: Seq<u8>) -> bool {
    &&& d.len() > 4096 ==> new.image() == old.image() && new.written_blocks()
        == old.written_blocks()
    &&& d.len() <= 4096 ==> new.image() == write_image(old.image(), p, d) && new.written_blocks()
        == old.written_blocks().push(p)
    &&& new.next_free() == old.next_free()
}

/// For well-formed keys, the position that a page's search computes on its entries
/// is the one computed on their bytes.
pub proof fn lemma_upper_key_view(keys: Seq<KeyEntry>, x: KeyEntry, key: Seq<u8>)
    requires
        forall|i: int| 0 <= i < keys.len() ==> (#[trigger] keys[i]).wf(),
        x.holds(key),
    ensures
        super::page::internal::upper_key_pos(keys, x) == upper_view_pos(key_views(keys), key),
    decreases keys.len(),
{
    if keys.len() > 0 {
        let t = keys.drop_last();
        lemma_upper_key_view(t, x, key);
        assert(key_views(keys).drop_last() =~= key_views(t));
        assert(keys.last().holds(keys.last()@));
    }
}

/// The first entry with a key, found on the entries or on their pairs.
pub proof fn lemma_first_with_key_view(s: Seq<KeyVal>, key: Seq<u8>)
    ensures
        super::page::leaf::first_with_key(s, key) == first_kv_index(kv_views(s), key),
    decreases s.len(),
{
    if s.len() > 0 {
        lemma_first_with_key_view(s.drop_first(), key);
        assert(kv_views(s).drop_first() =~= kv_views(s.drop_first()));
    }
}

/// A page written to a block reads back as the same page.
pub proof fn lemma_page_roundtrip(v: PageView)
    requires
        valid_view(v),
        encode_view(v).len() <= 4096,
    ensures
        decode_page(pad_block(encode_view(v))) == Ok::<PageView, DbErrorView>(v),
        pad_block(encode_view(v)).len() == 4096,
{
    let zeros = Seq::new((4096 - encode_view(v).len()) as nat, |i: int| 0u8);
    let block = pad_block(encode_view(v));
    match v {
        PageView::Internal { header, nkey, keys, children } => {
            let ptrs = encode_ptrs(children) + zeros;
            let body = be_bytes(nkey as nat, 2) + encode_key_views(keys) + ptrs;
            assert(block =~= header.spec_encode() + body);
            lemma_header_roundtrip(header, body);
            assert(block.skip(17) =~= body);
            crate::codec::lemma_pow256_values();
            lemma_be_bytes_len(nkey as nat, 2);
            crate::codec::lemma_be_value_of_bytes(nkey as nat, 2);
            assert(body.subrange(0, 2) =~= be_bytes(nkey as nat, 2));
            assert(body.skip(2) =~= encode_key_views(keys) + ptrs);
            lemma_keys_roundtrip(keys, ptrs);
            let m = encode_key_views(keys).len();
            assert(body.skip((2 + m) as int) =~= ptrs);
            lemma_ptrs_roundtrip(children, zeros);
        },
        PageView::Leaf { header, nkv, kvs } => {
            let body = be_bytes(nkv as nat, 2) + encode_kv_views(kvs) + zeros;
            assert(block =~= header.spec_encode() + body);
            lemma_header_roundtrip(header, body);
            assert(block.skip(17) =~= body);
            crate::codec::lemma_pow256_values();
            lemma_be_bytes_len(nkv as nat, 2);
            crate::codec::lemma_be_value_of_bytes(nkv as nat, 2);
            assert(body.subrange(0, 2) =~= be_bytes(nkv as nat, 2));
            assert(body.skip(2) =~= encode_kv_views(kvs) + zeros);
            lemma_kvs_roundtrip(kvs, zeros);
        },
    }
}

/// After a page is written at `p`, block `p` reads back as that page, and every
/// other full block reads as before.
pub proof fn lemma_write_then_read(img: Seq<Seq<u8>>, p: u64, v: PageView, q: u64)
    requires
        image_ok(img),
        valid_view(v),
        encode_view(v).len() <= 4096,
    ensures
        page_at(write_image(img, p, encode_view(v)), p) == Ok::<PageView, DbErrorView>(v),
        q != p && q < img.len() && img[q as int].len() == 4096 ==> page_at(
            write_image(img, p, encode_view(v)),
            q,
        ) == page_at(img, q),
        image_ok(write_image(img, p, encode_view(v))),
        write_image(img, p, encode_view(v)).len() >= img.len(),
{
    lemma_page_roundtrip(v);
    let w = write_image(img, p, encode_view(v));
    if q != p && q < img.len() && img[q as int].len() == 4096 {
        assert(pad_block(img[q as int]) =~= img[q as int]);
    }
    assert forall|i: int| 0 <= i < w.len() implies (#[trigger] w[i]).len() <= 4096 && (i < w.len()
        - 1 ==> w[i].len() == 4096) by {
        if i < img.len() && i != p {
            assert(img[i].len() <= 4096);
        }
    }
}

/// The file of blocks that the tree lives in, and where the next block goes.
pub struct BPTreeDisk {
    blocks: Vec<Vec<u8>>,
    next_free_block: u64,
    written: Vec<u64>,
}

impl BPTreeDisk {
    /// No block is longer than the block size, and every block lies before the next
    /// free one.
    pub closed spec fn wf(&self) -> bool {
        &&& image_ok(self.image())
        &&& self.image().len() <= self.next_free()
    }

    /// A well-formed tree has a well-formed image no longer than its next free block.
    pub proof fn lemma_wf_image(&self)
        requires
            self.wf(),
        ensures
            image_ok(self.image()),
            self.image().len() <= self.next_free(),
    {
    }

    /// The contents of the file, block by block.
    pub closed spec fn image(&self) -> Seq<Seq<u8>> {
        self.blocks@.map_values(|b: Vec<u8>| b@)
    }

    /// The block that the next allocation hands out.
    pub closed spec fn next_free(&self) -> u64 {
        self.next_free_block
    }

    /// The blocks written since the caller last took this list, in order.
    pub closed spec fn written_blocks(&self) -> Seq<u64> {
        self.written@
    }

    fn read_block_at_pointer(&self, pointer: u64) -> (r: DbResult<Vec<u8>>)
        ensures
            pointer < self.image().len() && self.image()[pointer as int].len() == 4096 ==> (r matches Ok(
                b,
            ) && b@ == self.image()[pointer as int]),
            !(pointer < self.image().len() && self.image()[pointer as int].len() == 4096) ==> (r matches Err(
                e,
            ) && e == eof()),
    {
        if pointer < self.blocks.len() as u64 {
            let b = &self.blocks[pointer as usize];
            if b.len() == PAGE_SIZE {
                return Ok(slice_to_vec(b.as_slice()));
            }
        }
        Err(eof_error())
    }

    fn write_block_at_pointer(&mut self, pointer: u64, data: &[u8]) -> (r: DbResult<()>)
        requires
            old(self).wf(),
            pointer < old(self).next_free(),
        ensures
            blocks_full(old(self).image()) ==> blocks_full(final(self).image()),
            final(self).wf(),
            data@.len() > 4096 ==> (r matches Err(e) && e@ == DbErrorView::InvalidFormat(
                data_size_message(data@.len()),
            )) && final(self).image() == old(self).image() && final(self).next_free()
                == old(self).next_free() && final(self).written_blocks() == old(
                self,
            ).written_blocks(),
            data@.len() <= 4096 ==> r is Ok && final(self).image() == write_image(
                old(self).image(),
                pointer,
                data@,
            ) && final(self).next_free() == old(self).next_free() && final(self).written_blocks()
                == old(self).written_blocks().push(pointer),
    {
        proof {
            if blocks_full(self.image()) && data@.len() <= 4096 {
                lemma_write_full(self.image(), pointer, data@);
            }
        }
        if data.len() > PAGE_SIZE {
            let mut msg = string_of("Data size ");
            push_decimal(&mut msg, data.len() as u64);
            push_str(&mut msg, " exceeds page size ");
            push_decimal(&mut msg, PAGE_SIZE as u64);
            return Err(DbError::InvalidFormat(msg));
        }
        let padded = pad_to_block(data);
        let ghost img = self.image();
        if (self.blocks.len() as u64) <= pointer {
            let n = self.blocks.len();
            if n > 0 {
                assert(self.image()[n - 1] == self.blocks@[n - 1]@);
                let last = pad_to_block(self.blocks[n - 1].as_slice());
                let ghost before = self.blocks@;
                self.blocks.set(n - 1, last);
                assert(self.blocks@ == before.update(n - 1, last));
            }
            assert(self.image() =~= Seq::new(
                n as nat,
                |i: int| if i < img.len() { pad_block(img[i]) } else { zero_block() },
            )) by {
                assert forall|i: int| 0 <= i < n - 1 implies pad_block(img[i]) =~= img[i] by {
                    assert(img[i].len() == 4096);
                }
            }
            let empty: Vec<u8> = Vec::new();
            while (self.blocks.len() as u64) <= pointer
                invariant
                    n <= self.blocks@.len() <= pointer + 1,
                    img.len() == n,
                    empty@.len() == 0,
                    self.next_free_block == old(self).next_free_block,
                    self.written@ == old(self).written@,
                    self.image() == Seq::new(
                        self.blocks@.len() as nat,
                        |i: int| if i < img.len() { pad_block(img[i]) } else { zero_block() },
                    ),
                decreases pointer + 1 - self.blocks@.len(),
            {
                let z = pad_to_block(empty.as_slice());
                assert(z@ =~= zero_block());
                let ghost before = self.blocks@;
                let ghost pre = self.image();
                self.blocks.push(z);
                assert(self.blocks@ == before.push(z));
                assert forall|i: int| 0 <= i < self.blocks@.len() implies self.image()[i] == (if i
                    < img.len() {
                    pad_block(img[i])
                } else {
                    zero_block()
                }) by {
                    if i < before.len() {
                        assert(self.blocks@[i] == before[i]);
                        assert(self.image()[i] == pre[i]);
                    } else {
                        assert(self.image()[i] == z@);
                    }
                }
                assert(self.image() =~= Seq::new(
                    self.blocks@.len() as nat,
                    |i: int| if i < img.len() { pad_block(img[i]) } else { zero_block() },
                ));
            }
        }
        let ghost before = self.blocks@;
        let ghost img2 = self.image();
        self.blocks.set(pointer as usize, padded);
        assert(self.blocks@ == before.update(pointer as int, padded));
        assert(self.image() =~= img2.update(pointer as int, pad_block(data@)));
        self.written.push(pointer);
        assert(self.image() =~= write_image(img, pointer, data@));
        assert(image_ok(self.image())) by {
            assert forall|i: int| 0 <= i < self.image().len() implies (#[trigger] self.image()[i]).len() <= 4096
                && (i < self.image().len() - 1 ==> self.image()[i].len() == 4096) by {
                if i != pointer && i < img.len() {
                    assert(img[i].len() <= 4096);
                }
            }
        }
        Ok(())
    }

    pub(crate) fn read_page_at_pointer(&self, pointer: u64) -> (r: DbResult<PageNode>)
        ensures
            match page_at(self.image(), pointer) {
                Ok(v) => r matches Ok(node) && node.wf() && node@ == v,
                Err(e) => r matches Err(x) && x@ == e,
            },
    {
        let buffer = self.read_block_at_pointer(pointer)?;
        let ghost block = buffer@;
        let mut cursor = Cursor::new(buffer);
        let header = match PageHeader::read_from(&mut cursor) {
            Ok(h) => h,
            Err(e) => {
                return Err(e);
            },
        };
        match header.page_type {
            PageType::Internal => {
                let page = BTreeInternalPage::read_from(&mut cursor, header)?;
                Ok(PageNode::Internal(page))
            },
            PageType::Leaf => {
                let page = BTreeLeafPage::read_from(&mut cursor, header)?;
                Ok(PageNode::Leaf(page))
            },
            PageType::Meta => Err(DbError::InvalidFormat(string_of("Meta page not supported"))),
        }
    }

    fn write_leaf_at(&mut self, pointer: u64, page: &BTreeLeafPage) -> (r: DbResult<()>)
        requires
            old(self).wf(),
            pointer < old(self).next_free(),
            leaf_ok(*page),
        ensures
            blocks_full(old(self).image()) ==> blocks_full(final(self).image()),
            final(self).wf(),
            wrote(*old(self), *final(self), pointer, encode_view(leaf_view(*page)), r),
    {
        let mut buffer: Vec<u8> = Vec::new();
        page.write_to(&mut buffer)?;
        assert(page.entries() =~= page.kv@);
        assert(buffer@ =~= encode_view(leaf_view(*page)));
        self.write_block_at_pointer(pointer, buffer.as_slice())
    }

    fn write_internal_at(&mut self, pointer: u64, page: &BTreeInternalPage) -> (r: DbResult<()>)
        requires
            old(self).wf(),
            pointer < old(self).next_free(),
            internal_ok(*page),
        ensures
            blocks_full(old(self).image()) ==> blocks_full(final(self).image()),
            final(self).wf(),
            wrote(*old(self), *final(self), pointer, encode_view(internal_view(*page)), r),
    {
        let mut buffer: Vec<u8> = Vec::new();
        proof {
            assert forall|j: int| 0 <= j < page.nkey implies (#[trigger] page.keys@[j]).spec_len()
                <= 12 by {
                page.keys@[j].lemma_holds(page.keys@[j]@);
            }
        }
        page.write_to(&mut buffer)?;
        assert(page.keys@.take(page.nkey as int) =~= page.keys@);
        assert(page.children@.take(page.nkey as int) =~= page.children@);
        assert(buffer@ =~= encode_view(internal_view(*page)));
        self.write_block_at_pointer(pointer, buffer.as_slice())
    }

    fn write_node_at(&mut self, pointer: u64, node: &PageNode) -> (r: DbResult<()>)
        requires
            old(self).wf(),
            pointer < old(self).next_free(),
            node.wf(),
        ensures
            blocks_full(old(self).image()) ==> blocks_full(final(self).image()),
            final(self).wf(),
            wrote(*old(self), *final(self), pointer, encode_view(node@), r),
    {
        match node {
            PageNode::Internal(p) => self.write_internal_at(pointer, p),
            PageNode::Leaf(p) => self.write_leaf_at(pointer, p),
        }
    }

    /// A tree over the bytes of a page file. An empty file gets an empty leaf as its
    /// root, written at block 0.
    pub fn from_image(image: Vec<u8>) -> (r: DbResult<Self>)
        ensures
            r matches Ok(t) && t.wf() && (if image@.len() == 0 {
                t.image() == write_image(Seq::empty(), 0, encode_view(empty_leaf_view()))
                    && t.next_free() == 1 && t.written_blocks() == seq![0u64]
            } else {
                t.image() == blocks_of(image@) && t.next_free() == image@.len() / 4096 + 1
                    && t.written_blocks() == Seq::<u64>::empty()
            }),
            image@.len() == 0 ==> (r matches Ok(t) && leaf_tree(t.image()) && t.image().len() == 1
                && tree_entries(t.image()) == Seq::<(Seq<u8>, Seq<u8>)>::empty() && blocks_full(t.image())),
            image@.len() % 4096 == 0 ==> (r matches Ok(t) && blocks_full(t.image())),
    {
        let file_size = image.len();
        let mut blocks: Vec<Vec<u8>> = Vec::new();
        let mut start: usize = 0;
        while start < file_size
            invariant
                file_size == image@.len(),
                start <= file_size,
                start % 4096 == 0 || start == file_size,
                blocks@.len() == (start + 4095) / 4096,
                blocks@.map_values(|b: Vec<u8>| b@) == blocks_of(image@).take(blocks@.len() as int),
            decreases file_size - start,
        {
            let end = if file_size - start > PAGE_SIZE {
                start + PAGE_SIZE
            } else {
                file_size
            };
            let block = slice_to_vec(vstd::slice::slice_subrange(image.as_slice(), start, end));
            let ghost before = blocks@;
            blocks.push(block);
            proof {
                lemma_blocks_of(image@);
                assert(blocks@ == before.push(block));
                assert(blocks@.map_values(|b: Vec<u8>| b@) =~= blocks_of(image@).take(blocks@.len() as int));
            }
            start = end;
        }
        proof {
            lemma_blocks_of(image@);
            assert(blocks_of(image@).take(blocks@.len() as int) =~= blocks_of(image@));
        }
        let next_free_block: u64 = if file_size == 0 {
            1
        } else {
            (file_size / PAGE_SIZE) as u64 + 1
        };
        let mut tree = Self { blocks, next_free_block, written: Vec::new() };
        assert(tree.image() =~= blocks_of(image@));
        proof {
            if image@.len() % 4096 == 0 {
                lemma_blocks_of_full(image@);
            }
        }
        if file_size == 0 {
            assert(tree.image() =~= Seq::<Seq<u8>>::empty());
            tree.initialize_root()?;
            proof {
                lemma_empty_leaf_size();
                lemma_write_then_read(Seq::empty(), 0, empty_leaf_view(), 0);
                lemma_write_full(Seq::empty(), 0, encode_view(empty_leaf_view()));
            }
        }
        Ok(tree)
    }

    fn initialize_root(&mut self) -> (r: DbResult<()>)
        requires
            old(self).wf(),
            old(self).next_free() >= 1,
        ensures
            blocks_full(old(self).image()) ==> blocks_full(final(self).image()),
            r is Ok,
            final(self).wf(),
            final(self).image() == write_image(old(self).image(), 0, encode_view(empty_leaf_view())),
            final(self).next_free() == old(self).next_free(),
            final(self).written_blocks() == old(self).written_blocks().push(0),
    {
        let root = BTreeLeafPage::new();
        proof {
            lemma_empty_leaf_size();
            assert(kv_views(root.kv@) =~= Seq::<(Seq<u8>, Seq<u8>)>::empty());
            assert(leaf_view(root) == empty_leaf_view());
        }
        self.write_leaf_at(0, &root)?;
        Ok(())
    }

    /// The bytes of the file: the blocks one after another.
    pub fn image_bytes(&self) -> (r: Vec<u8>)
        ensures
            r@ == flatten_blocks(self.image()),
    {
        let mut out: Vec<u8> = Vec::new();
        let mut i: usize = 0;
        while i < self.blocks.len()
            invariant
                i <= self.blocks@.len(),
                out@ == flatten_blocks(self.image().take(i as int)),
            decreases self.blocks@.len() - i,
        {
            crate::codec::append_bytes(&mut out, self.blocks[i].as_slice());
            proof {
                assert(self.image().take(i + 1).drop_last() =~= self.image().take(i as int));
            }
            i = i + 1;
        }
        assert(self.image().take(i as int) =~= self.image());
        out
    }

    /// The bytes of block `pointer`, if the file has that block.
    pub fn block_bytes(&self, pointer: u64) -> (r: Option<Vec<u8>>)
        ensures
            pointer < self.image().len() ==> (r matches Some(b) && b@ == self.image()[pointer as int]),
            pointer >= self.image().len() ==> r is None,
    {
        if pointer < self.blocks.len() as u64 {
            Some(slice_to_vec(self.blocks[pointer as usize].as_slice()))
        } else {
            None
        }
    }

    /// The number of blocks in the file.
    pub fn block_count(&self) -> (r: usize)
        ensures
            r == self.image().len(),
    {
        self.blocks.len()
    }

    /// The block that the next allocation hands out.
    pub fn next_free_block(&self) -> (r: u64)
        ensures
            r == self.next_free(),
    {
        self.next_free_block
    }

    /// Hands out the blocks written since the last call, in order, and forgets them.
    pub fn take_written(&mut self) -> (r: Vec<u64>)
        requires
            old(self).wf(),
        ensures
            blocks_full(old(self).image()) ==> blocks_full(final(self).image()),
            final(self).wf(),
            r@ == old(self).written_blocks(),
            final(self).written_blocks() == Seq::<u64>::empty(),
            final(self).image() == old(self).image(),
            final(self).next_free() == old(self).next_free(),
    {
        let mut taken: Vec<u64> = Vec::new();
        std::mem::swap(&mut taken, &mut self.written);
        taken
    }

    fn allocate_block(&mut self) -> (r: u64)
        requires
            old(self).wf(),
            old(self).next_free() < u64::MAX,
        ensures
            blocks_full(old(self).image()) ==> blocks_full(final(self).image()),
            final(self).wf(),
            r == old(self).next_free(),
            final(self).next_free() == r + 1,
            final(self).image() == old(self).image(),
            final(self).written_blocks() == old(self).written_blocks(),
    {
        let block = self.next_free_block;
        self.next_free_block = self.next_free_block + 1;
        block
    }

    /// Update an existing key. In a one-leaf tree it returns true exactly when an
    /// entry has the key, and changes that entry's value alone.
    pub fn set(&mut self, key: &[u8], val: &[u8]) -> (r: DbResult<bool>)
        requires
            old(self).wf(),
        ensures
            final(self).next_free() == old(self).next_free(),
            final(self).image().len() <= final(self).next_free(),
            blocks_full(old(self).image()) ==> blocks_full(final(self).image()),
            final(self).wf(),
            key@.len() > 12 ==> (r matches Err(e) && e@ == DbErrorView::KeySizeExceeded(
                key@.len() as usize,
                12,
            )) && final(self).image() == old(self).image(),
            key@.len() <= 12 && val@.len() > 12 ==> (r matches Err(e) && e@
                == DbErrorView::ValueSizeExceed(val@.len() as usize, 12)) && final(self).image()
                == old(self).image(),
            key@.len() <= 12 && val@.len() <= 12 ==> updated(
                *old(self),
                *final(self),
                leaf_target(old(self).image(), 0, key@, old(self).image().len()),
                Some((key@, val@)),
                r,
            ),
            leaf_tree(old(self).image()) && key@.len() <= 12 && val@.len() <= 12 ==> match entry_index(
                tree_entries(old(self).image()),
                key@,
            ) {
                Some(i) => {
                    &&& r matches Ok(true)
                    &&& leaf_tree(final(self).image())
                    &&& final(self).image().len() == old(self).image().len()
                    &&& tree_entries(final(self).image()) == tree_entries(old(self).image()).update(i, (key@, val@))
                },
                None => r matches Ok(false) && final(self).image() == old(self).image(),
            },
    {
        let kv = KeyVal::new(key, val)?;
        proof {
            super::page::leaf::lemma_holds_view(kv, key@, val@);
            self.lemma_wf_image();
            if leaf_tree(self.image()) {
                super::small::lemma_leaf_tree_lookup(self.image(), key@);
                if let Some(i) = entry_index(tree_entries(self.image()), key@) {
                    super::small::lemma_leaf_tree_update(self.image(), i, key@, val@);
                }
            }
        }
        self.set_recursive(0, kv, self.blocks.len())
    }

    fn set_recursive(&mut self, pointer: u64, kv: KeyVal, budget: usize) -> (r: DbResult<bool>)
        requires
            old(self).wf(),
            kv.wf(),
        ensures
            blocks_full(old(self).image()) ==> blocks_full(final(self).image()),
            final(self).wf(),
            updated(
                *old(self),
                *final(self),
                leaf_target(old(self).image(), pointer, kv@.0, budget as nat),
                Some(kv@),
                r,
            ),
        decreases budget,
    {
        if budget == 0 {
            return Err(DbError::InvalidFormat(string_of("Cyclic page pointers")));
        }
        let node = self.read_page_at_pointer(pointer)?;
        let ghost v = node@;
        assert(page_at(self.image(), pointer) == Ok::<PageView, DbErrorView>(v));
        match node {
            PageNode::Internal(ipage) => {
                let key_entry = KeyEntry::new(kv.key_bytes())?;
                proof {
                    lemma_upper_key_view(ipage.keys@, key_entry, kv@.0);
                    super::page::internal::lemma_upper_key_pos(ipage.keys@, key_entry);
                    assert(ipage.keys@.take(ipage.nkey as int) =~= ipage.keys@);
                }
                let pos = match ipage.find_last_le(&key_entry) {
                    Some(p) => p,
                    None => 0,
                };
                if pos < ipage.children.len() {
                    self.set_recursive(ipage.children[pos], kv, budget - 1)
                } else {
                    Ok(false)
                }
            },
            PageNode::Leaf(lpage) => {
                let mut lpage = lpage;
                match lpage.find_exact(kv.key_bytes()) {
                    Some(pos) => {
                        proof {
                            lemma_first_kv_index_is(kv_views(lpage.kv@), kv@.0, pos as int);
                        }
                        let ghost old_kv = lpage.kv@;
                        lpage.kv.set(pos, kv);
                        assert(kv_views(lpage.kv@) =~= kv_views(old_kv).update(pos as int, kv@));
                        assert(leaf_view(lpage) == leaf_with_update(
                            old(self).image(),
                            pointer,
                            pos as int,
                            kv@,
                        ));
                        self.write_leaf_at(pointer, &lpage)?;
                        Ok(true)
                    },
                    None => {
                        proof {
                            lemma_first_kv_index_none(kv_views(lpage.kv@), kv@.0);
                        }
                        Ok(false)
                    },
                }
            },
        }
    }

    /// Delete a key. The lookup of every other key finds what it found before, the
    /// separators along every lookup path stay as ordered as they were, and where
    /// the lookup of the key does not get stuck and its leaf holds it once, the
    /// lookup finds nothing afterwards.
    pub fn del(&mut self, key: &[u8]) -> (r: DbResult<bool>)
        requires
            old(self).wf(),
        ensures
            final(self).next_free() == old(self).next_free(),
            final(self).image().len() <= final(self).next_free(),
            blocks_full(old(self).image()) ==> blocks_full(final(self).image()),
            final(self).wf(),
            updated(
                *old(self),
                *final(self),
                leaf_target(old(self).image(), 0, key@, old(self).image().len()),
                None,
                r,
            ),
            final(self).image().len() == old(self).image().len(),
            forall|other: Seq<u8>|
                other != key@ ==> #[trigger] find_walk(final(self).image(), 0, other, old(self).image().len())
                    == find_walk(old(self).image(), 0, other, old(self).image().len()),
            forall|other: Seq<u8>, lo: Option<Seq<u8>>, hi: Option<Seq<u8>>|
                #[trigger] ordered_walk(old(self).image(), 0, other, old(self).image().len(), lo, hi)
                    ==> ordered_walk(final(self).image(), 0, other, old(self).image().len(), lo, hi),
            r is Ok && !(find_walk(old(self).image(), 0, key@, old(self).image().len()) is Stuck)
                && target_key_once(old(self).image(), 0, key@, old(self).image().len())
                ==> find_walk(final(self).image(), 0, key@, old(self).image().len()) == Lookup::Found(None),
            leaf_tree(old(self).image()) ==> match entry_index(tree_entries(old(self).image()), key@) {
                Some(i) => {
                    &&& r matches Ok(true)
                    &&& leaf_tree(final(self).image())
                    &&& tree_entries(final(self).image()) == tree_entries(old(self).image()).remove(i)
                    &&& entry_index(tree_entries(final(self).image()), key@) is None
                },
                None => r matches Ok(false) && final(self).image() == old(self).image(),
            },
    {
        let ghost img0 = self.image();
        let ghost n0 = img0.len();
        proof {
            self.lemma_wf_image();
            if leaf_tree(img0) {
                super::small::lemma_leaf_tree_lookup(img0, key@);
                if let Some(i) = entry_index(tree_entries(img0), key@) {
                    super::small::lemma_leaf_tree_remove(img0, i, key@);
                }
            }
        }
        let r = self.del_recursive(0, key, self.blocks.len());
        proof {
            match leaf_target(img0, 0, key@, n0) {
                Ok(Some((lp, i))) => {
                    lemma_leaf_target_leaf(img0, 0, key@, n0, lp, i);
                    let d = encode_view(leaf_without(img0, lp, i));
                    if d.len() <= 4096 {
                        assert(self.image().len() == n0);
                        assert forall|other: Seq<u8>| other != key@ implies #[trigger] find_walk(
                            self.image(),
                            0,
                            other,
                            n0,
                        ) == find_walk(img0, 0, other, n0) by {
                            lemma_remove_keeps_others(img0, 0, key@, n0, lp, i, other, n0);
                        }
                        assert forall|other: Seq<u8>, lo: Option<Seq<u8>>, hi: Option<Seq<u8>>| #[trigger] ordered_walk(
                            img0,
                            0,
                            other,
                            n0,
                            lo,
                            hi,
                        ) implies ordered_walk(self.image(), 0, other, n0, lo, hi) by {
                            lemma_remove_keeps_order(img0, 0, key@, n0, lp, i, other, n0, lo, hi);
                        }
                        if !(find_walk(img0, 0, key@, n0) is Stuck) && target_key_once(img0, 0, key@, n0) {
                            lemma_remove_then_find(img0, 0, key@, n0, lp, i);
                        }
                    }
                },
                Ok(None) => {
                    if !(find_walk(img0, 0, key@, n0) is Stuck) {
                        lemma_target_none_find(img0, 0, key@, n0);
                    }
                },
                Err(_) => {},
            }
        }
        r
    }

    fn del_recursive(&mut self, pointer: u64, key: &[u8], budget: usize) -> (r: DbResult<bool>)
        requires
            old(self).wf(),
        ensures
            blocks_full(old(self).image()) ==> blocks_full(final(self).image()),
            final(self).wf(),
            updated(
                *old(self),
                *final(self),
                leaf_target(old(self).image(), pointer, key@, budget as nat),
                None,
                r,
            ),
        decreases budget,
    {
        if budget == 0 {
            return Err(DbError::InvalidFormat(string_of("Cyclic page pointers")));
        }
        let node = self.read_page_at_pointer(pointer)?;
        let ghost v = node@;
        assert(page_at(self.image(), pointer) == Ok::<PageView, DbErrorView>(v));
        match node {
            PageNode::Internal(ipage) => {
                let key_entry = KeyEntry::new(key)?;
                proof {
                    lemma_upper_key_view(ipage.keys@, key_entry, key@);
                    super::page::internal::lemma_upper_key_pos(ipage.keys@, key_entry);
                    assert(ipage.keys@.take(ipage.nkey as int) =~= ipage.keys@);
                }
                let pos = match ipage.find_last_le(&key_entry) {
                    Some(p) => p,
                    None => 0,
                };
                if pos < ipage.children.len() {
                    self.del_recursive(ipage.children[pos], key, budget - 1)
                } else {
                    Ok(false)
                }
            },
            PageNode::Leaf(lpage) => {
                let mut lpage = lpage;
                let ghost old_kv = lpage.kv@;
                proof {
                    assert(lpage.entries() =~= lpage.kv@);
                    lemma_first_with_key_view(lpage.kv@, key@);
                }
                let deleted = lpage.del_key(key);
                if deleted {
                    proof {
                        super::walk::lemma_first_kv_index(kv_views(old_kv), key@);
                        let i = first_kv_index(kv_views(old_kv), key@).unwrap();
                        assert(kv_views(lpage.kv@) =~= kv_views(old_kv).remove(i));
                        assert(leaf_view(lpage) == leaf_without(old(self).image(), pointer, i));
                        assert forall|j: int| 0 <= j < lpage.kv@.len() implies (#[trigger] lpage.kv@[j]).wf() by {
                            if j < i {
                                assert(lpage.kv@[j] == old_kv[j]);
                            } else {
                                assert(lpage.kv@[j] == old_kv[j + 1]);
                            }
                        }
                    }
                    self.write_leaf_at(pointer, &lpage)?;
                }
                Ok(deleted)
            },
        }
    }

    /// Inserts the pair: a leaf takes it after the entries with keys at or before
    /// it, a page that fills up splits, and a root that splits moves to a new block
    /// under a new root at block 0. Where the leaf that the insertion reaches had no
    /// entry with the key and the separators along its path are in order, a lookup
    /// finds the new entry afterwards, every key that the insertion keeps (see
    /// `frame_pre`) is found as before, and no page off the insertion's path, other
    /// than the new blocks, changed. It succeeds where every page on its path has
    /// room for one more entry. A one-leaf tree with fewer than thirty-one entries
    /// and no entry with the key stays a one-leaf tree, the entry placed in order.
    /// Every write keeps the image's blocks whole.
    #[verifier::spinoff_prover]
    #[verifier::rlimit(60)]
    pub fn insert(&mut self, key: &[u8], val: &[u8]) -> (r: DbResult<()>)
        requires
            old(self).wf(),
            old(self).next_free() + old(self).image().len() + 2 <= u64::MAX,
        ensures
            final(self).next_free() <= old(self).next_free() + old(self).image().len() + 2,
            final(self).image().len() <= final(self).next_free(),
            blocks_full(old(self).image()) ==> blocks_full(final(self).image()),
            final(self).wf(),
            key@.len() > 12 ==> (r matches Err(e) && e@ == DbErrorView::KeySizeExceeded(
                key@.len() as usize,
                12,
            )) && final(self).image() == old(self).image(),
            key@.len() <= 12 && val@.len() > 12 ==> (r matches Err(e) && e@
                == DbErrorView::ValueSizeExceed(val@.len() as usize, 12)) && final(self).image()
                == old(self).image(),
            key@.len() <= 12 && val@.len() <= 12 && room_on_path(old(self).image(), 0, key@, old(self).image().len())
                ==> r is Ok,
            r is Ok && val@.len() <= 12 && insert_pre(
                old(self).image(),
                0,
                key@,
                old(self).image().len(),
                None,
                None,
            ) ==> find_walk(final(self).image(), 0, key@, final(self).image().len()) == Lookup::Found(
                Some((key@, val@)),
            ),
            r is Ok && insert_pre(old(self).image(), 0, key@, old(self).image().len(), None, None)
                ==> forall|other: Seq<u8>|
                #[trigger] frame_pre(old(self).image(), 0, key@, other, old(self).image().len(), None, None)
                    ==> find_walk(final(self).image(), 0, other, final(self).image().len()) == find_walk(
                    old(self).image(),
                    0,
                    other,
                    old(self).image().len(),
                ),
            r is Ok && insert_pre(old(self).image(), 0, key@, old(self).image().len(), None, None)
                ==> forall|q: u64|
                q < old(self).next_free() && !walk_blocks(old(self).image(), 0, key@, old(self).image().len()).contains(q)
                    && page_at(old(self).image(), q) is Ok ==> #[trigger] page_at(final(self).image(), q)
                    == page_at(old(self).image(), q),
            leaf_tree(old(self).image()) && tree_entries(old(self).image()).len() < 31 && key@.len() <= 12
                && val@.len() <= 12 && entry_index(tree_entries(old(self).image()), key@) is None ==> {
                &&& r is Ok
                &&& leaf_tree(final(self).image())
                &&& final(self).image().len() == old(self).image().len()
                &&& final(self).next_free() == old(self).next_free()
                &&& tree_entries(final(self).image()) == entries_with(tree_entries(old(self).image()), (key@, val@))
            },
    {
        let kv = KeyVal::new(key, val)?;
        proof {
            super::page::leaf::lemma_holds_view(kv, key@, val@);
        }
        let ghost img0 = self.image();
        let ghost nf0 = self.next_free();
        let ghost n0 = img0.len();
        let insert_result = self.insert_recursive(0, kv, self.blocks.len(), Ghost(None), Ghost(None))?;
        let ghost img1 = self.image();
        let ghost nf1 = self.next_free();
        let ghost pre = insert_pre(img0, 0, key@, n0, None, None);
        let ghost s = walk_blocks(img0, 0, key@, n0);
        let ghost small = leaf_tree(img0) && tree_entries(img0).len() < 31 && key@.len() <= 12 && val@.len() <= 12
            && entry_index(tree_entries(img0), key@) is None;
        proof {
            if small {
                let kvs = tree_entries(img0);
                super::small::lemma_leaf_tree_count(img0);
                super::walk::lemma_page_at_valid(img0, 0);
                assert(room_on_path(img0, 0, key@, n0));
                assert(keys_fit(entry_keys(kvs))) by {
                    assert forall|i: int| 0 <= i < entry_keys(kvs).len() implies (#[trigger] entry_keys(kvs)[i]).len() <= 12 by {
                        assert(kvs[i].0.len() <= 12);
                    }
                }
                super::small::lemma_entries_with(kvs, key@, val@);
                assert(kv@ == (key@, val@));
                assert(insert_result is None);
            }
        }
        match insert_result {
            Some(new_root_data) => {
                self.grow_root(new_root_data, Ghost(img0), Ghost(nf0), Ghost(kv@), Ghost(n0))?;
            },
            None => {
                proof {
                    if pre {
                        assert(reads_alike(img1, img1, s.drop_first(), nf0, nf1));
                        lemma_find_step(img1, 0, key@, img1.len());
                        lemma_find_from_budget(img1, page_of(img1, 0), key@, (n0 - 1) as nat, (img1.len() - 1) as nat);
                        assert forall|other: Seq<u8>| #[trigger] frame_pre(img0, 0, key@, other, n0, None, None) implies find_walk(
                            img1,
                            0,
                            other,
                            img1.len(),
                        ) == find_walk(img0, 0, other, n0) by {
                            super::frame::lemma_root_keep_frame(img0, nf0, img1, nf1, key@, n0, other);
                        }
                    }
                }
            },
        }
        Ok(())
    }

    /// Puts a new root at block 0 above the old root's page, moved to a new block,
    /// and its new sibling `new_root_data`, written to another new block.
    #[verifier::spinoff_prover]
    #[verifier::rlimit(100)]
    fn grow_root(
        &mut self,
        new_root_data: PageNode,
        Ghost(img0): Ghost<Seq<Seq<u8>>>,
        Ghost(nf0): Ghost<u64>,
        Ghost(kv): Ghost<(Seq<u8>, Seq<u8>)>,
        Ghost(n0): Ghost<nat>,
    ) -> (r: DbResult<()>)
        requires
            old(self).wf(),
            new_root_data.wf(),
            old(self).next_free() + 2 <= u64::MAX,
        ensures
            blocks_full(old(self).image()) ==> blocks_full(final(self).image()),
            final(self).wf(),
            final(self).image().len() >= old(self).image().len(),
            final(self).next_free() <= old(self).next_free() + 2,
            r is Ok && n0 == img0.len() && img0.len() <= nf0 <= old(self).next_free() && insert_pre(
                img0,
                0,
                kv.0,
                n0,
                None,
                None,
            ) && insert_outcome(
                img0,
                nf0,
                old(self).image(),
                old(self).next_free(),
                0,
                kv,
                n0,
                None,
                None,
                Some(new_root_data@),
            ) ==> find_walk(final(self).image(), 0, kv.0, final(self).image().len()) == Lookup::Found(
                Some(kv),
            ),
            r is Ok && n0 == img0.len() && img0.len() <= nf0 <= old(self).next_free() && insert_pre(
                img0,
                0,
                kv.0,
                n0,
                None,
                None,
            ) && insert_outcome(
                img0,
                nf0,
                old(self).image(),
                old(self).next_free(),
                0,
                kv,
                n0,
                None,
                None,
                Some(new_root_data@),
            ) && frame_outcome(
                img0,
                nf0,
                old(self).image(),
                old(self).next_free(),
                0,
                kv.0,
                n0,
                None,
                None,
                Some(new_root_data@),
            ) ==> (forall|other: Seq<u8>|
                #[trigger] frame_pre(img0, 0, kv.0, other, n0, None, None) ==> find_walk(
                    final(self).image(),
                    0,
                    other,
                    final(self).image().len(),
                ) == find_walk(img0, 0, other, n0)) && (forall|q: u64|
                q < nf0 && !walk_blocks(img0, 0, kv.0, n0).contains(q) && page_at(img0, q) is Ok
                    ==> #[trigger] page_at(final(self).image(), q) == page_at(img0, q)),
            (page_at(old(self).image(), 0) matches Ok(v) && page_fits(v)) && page_fits(new_root_data@)
                ==> r is Ok,
    {
        let ghost img1 = self.image();
        let ghost nf1 = self.next_free();
        let ghost key = kv.0;
        let ghost s = walk_blocks(img0, 0, key, n0);
        let ghost g = n0 == img0.len() && img0.len() <= nf0 <= nf1 && insert_pre(img0, 0, key, n0, None, None)
            && insert_outcome(img0, nf0, img1, nf1, 0, kv, n0, None, None, Some(new_root_data@));
        let ghost fits = (page_at(img1, 0) matches Ok(v) && page_fits(v)) && page_fits(new_root_data@);
        proof {
            lemma_node_encoding(new_root_data);
            if fits {
                lemma_page_size(new_root_data@);
                self.lemma_wf_image();
            }
            if g {
                lemma_walk_no_return(img0, 0, key, n0);
                lemma_walk_chain(img0, 0, key, n0);
            }
        }
        let mut new_root = BTreeInternalPage::new();
        let old_root_pointer = 0u64;
        let new_node_pointer = self.allocate_block();
        // Write the new node
        self.write_node_at(new_node_pointer, &new_root_data)?;
        let ghost img2 = self.image();
        proof {
            if g || fits {
                super::grow::lemma_write_keeps(img1, new_node_pointer, new_root_data@, 0);
            }
        }
        // Get first keys from both nodes
        let old_root = self.read_page_at_pointer(old_root_pointer)?;
        let old_key = get_first_key(&old_root);
        let new_key = get_first_key(&new_root_data);
        if let (Some(old_k), Some(new_k)) = (old_key, new_key) {
            new_root.insert_kv(old_k, old_root_pointer)?;
            proof {
                assert(new_root.keys@.take(0) =~= Seq::<KeyEntry>::empty());
            }
            let ghost one = new_root.keys@;
            new_root.insert_kv(new_k, new_node_pointer)?;
            proof {
                if g {
                    assert(one.take(1) =~= seq![old_k]);
                    old_k.lemma_holds(old_k@);
                    new_k.lemma_holds(new_k@);
                    lemma_upper_key_view(one.take(1), new_k, new_k@);
                    assert(key_views(one.take(1)) =~= seq![old_k@]);
                    super::grow::lemma_upper_unique(seq![old_k@], new_k@, 1);
                }
            }
            // Move old root to new location
            let new_old_root_pointer = self.allocate_block();
            proof {
                lemma_node_encoding(old_root);
                if fits {
                    lemma_page_size(old_root@);
                }
            }
            self.write_node_at(new_old_root_pointer, &old_root)?;
            let ghost img3 = self.image();
            new_root.children.set(0, new_old_root_pointer);
            proof {
                lemma_node_encoding(old_root);
                lemma_node_encoding(PageNode::Internal(new_root));
                lemma_page_size(internal_view(new_root));
            }
            // Write new root at position 0
            self.write_internal_at(0, &new_root)?;
            proof {
                if g {
                    lemma_node_encoding(PageNode::Internal(new_root));
                    assert(key_views(new_root.keys@) =~= seq![old_k@, new_k@]);
                    assert(new_root.children@ =~= seq![new_old_root_pointer, new_node_pointer]);
                    assert forall|i: int| 0 <= i < s.drop_first().len() implies (#[trigger] s.drop_first()[i]) < nf0 by {
                        assert(page_at(img0, s[i + 1]) is Ok);
                    }
                    assert forall|i: int| 0 <= i < s.drop_first().len() implies page_at(img1, #[trigger] s.drop_first()[i]) is Ok by {
                        assert(page_at(img1, s[i + 1]) is Ok);
                    }
                    assert(page_at(img0, s[0]) is Ok);
                    lemma_root_split_reads(
                        img1,
                        nf0,
                        nf1,
                        img2,
                        img3,
                        self.image(),
                        s.drop_first(),
                        new_root_data@,
                        old_root@,
                        internal_view(new_root),
                    );
                    lemma_root_split_finds(
                        img1,
                        nf0,
                        nf1,
                        self.image(),
                        s,
                        kv,
                        n0,
                        new_root_data@,
                        old_root@,
                        internal_view(new_root),
                    );
                    if frame_outcome(img0, nf0, img1, nf1, 0, key, n0, None, None, Some(new_root_data@)) {
                        let img4 = self.image();
                        assert forall|q: u64| q != 0 && q < nf0 && page_at(img1, q) is Ok implies #[trigger] page_at(img4, q) == page_at(img1, q) by {
                            super::grow::lemma_write_keeps(img1, new_node_pointer, new_root_data@, q);
                            super::grow::lemma_write_keeps(img2, new_old_root_pointer, old_root@, q);
                            super::grow::lemma_write_keeps(img3, 0, internal_view(new_root), q);
                        }
                        assert forall|q: u64| q < nf0 && !s.contains(q) && page_at(img0, q) is Ok implies #[trigger] page_at(img4, q) == page_at(img0, q) by {
                            assert(s[0] == 0);
                            assert(page_at(img1, q) == page_at(img0, q));
                        }
                        assert forall|other: Seq<u8>| #[trigger] frame_pre(img0, 0, key, other, n0, None, None) implies find_walk(
                            img4,
                            0,
                            other,
                            img4.len(),
                        ) == find_walk(img0, 0, other, n0) by {
                            super::frame::lemma_root_split_frame(
                                img0,
                                nf0,
                                img1,
                                nf1,
                                img4,
                                key,
                                n0,
                                new_root_data@,
                                old_root@,
                                internal_view(new_root),
                                other,
                            );
                        }
                    }
                }
            }
        }
        Ok(())
    }

    /// Inserts `kv` below the page at `pointer`, and hands back the new right
    /// sibling of that page where it split. Where the path has room the call
    /// succeeds and a split leaves half of the entries or keys on each side; a leaf
    /// takes the entry where its search puts it and keeps the first half of the
    /// entries when it splits, the keys of both halves in order and within the
    /// bounds of the page.
    fn insert_recursive(
        &mut self,
        pointer: u64,
        kv: KeyVal,
        budget: usize,
        Ghost(lo): Ghost<Option<Seq<u8>>>,
        Ghost(hi): Ghost<Option<Seq<u8>>>,
    ) -> (r: DbResult<Option<PageNode>>)
        requires
            old(self).wf(),
            kv.wf(),
            old(self).next_free() + budget <= u64::MAX,
        ensures
            blocks_full(old(self).image()) ==> blocks_full(final(self).image()),
            final(self).wf(),
            r matches Ok(Some(node)) ==> node.wf(),
            old(self).next_free() <= final(self).next_free() <= old(self).next_free() + budget,
            final(self).image().len() >= old(self).image().len(),
            room_on_path(old(self).image(), pointer, kv@.0, budget as nat) ==> (r matches Ok(res) && (
            page_at(final(self).image(), pointer) matches Ok(v) && page_fits(v) && (res matches Some(n)
                ==> page_fits(n@) && split_halves(v, n@)))),
            r matches Ok(res) ==> (page_at(old(self).image(), pointer) matches Ok(PageView::Leaf { kvs, .. })
                ==> final(self).image().len() == old(self).image().len() && final(self).next_free() == old(self).next_free()
                && (page_at(final(self).image(), pointer)
                matches Ok(v) && leaf_insert_result(
                kvs,
                kv@,
                v,
                match res {
                    Some(n) => Some(n@),
                    None => None,
                },
            ))),
            r matches Ok(res) ==> ((page_at(old(self).image(), pointer) is Ok && page_of(old(self).image(), pointer) is Leaf
                && insert_pre(old(self).image(), pointer, kv@.0, budget as nat, lo, hi))
                ==> (page_at(final(self).image(), pointer) matches Ok(v) && halves_in_order(
                v,
                match res {
                    Some(n) => Some(n@),
                    None => None,
                },
                lo,
                hi,
            ))),
            r matches Ok(res) ==> insert_pre(old(self).image(), pointer, kv@.0, budget as nat, lo, hi)
                ==> frame_outcome(
                old(self).image(),
                old(self).next_free(),
                final(self).image(),
                final(self).next_free(),
                pointer,
                kv@.0,
                budget as nat,
                lo,
                hi,
                match res {
                    Some(n) => Some(n@),
                    None => None,
                },
            ),
            r matches Ok(res) ==> insert_pre(old(self).image(), pointer, kv@.0, budget as nat, lo, hi)
                ==> insert_outcome(
                old(self).image(),
                old(self).next_free(),
                final(self).image(),
                final(self).next_free(),
                pointer,
                kv@,
                budget as nat,
                lo,
                hi,
                match res {
                    Some(n) => Some(n@),
                    None => None,
                },
            ),
        decreases budget, 1nat,
    {
        if budget == 0 {
            return Err(DbError::InvalidFormat(string_of("Cyclic page pointers")));
        }
        let ghost img0 = self.image();
        let ghost nf0 = self.next_free();
        let ghost key = kv@.0;
        let node = self.read_page_at_pointer(pointer)?;
        let ghost v0 = node@;
        proof {
            lemma_node_encoding(node);
        }
        match node {
            PageNode::Internal(ipage) => self.insert_internal(pointer, ipage, kv, budget, Ghost(lo), Ghost(hi)),
            PageNode::Leaf(lpage) => self.insert_leaf(pointer, lpage, kv, Ghost(budget as nat), Ghost(lo), Ghost(hi)),
        }
    }

    /// Inserts below the internal page read at `pointer`, as `insert_recursive` does.
    #[verifier::rlimit(100)]
    fn insert_internal(
        &mut self,
        pointer: u64,
        ipage: BTreeInternalPage,
        kv: KeyVal,
        budget: usize,
        Ghost(lo): Ghost<Option<Seq<u8>>>,
        Ghost(hi): Ghost<Option<Seq<u8>>>,
    ) -> (r: DbResult<Option<PageNode>>)
        requires
            old(self).wf(),
            kv.wf(),
            internal_ok(ipage),
            budget > 0,
            page_at(old(self).image(), pointer) == Ok::<PageView, DbErrorView>(internal_view(ipage)),
            old(self).next_free() + budget <= u64::MAX,
        ensures
            blocks_full(old(self).image()) ==> blocks_full(final(self).image()),
            final(self).wf(),
            r matches Ok(Some(node)) ==> node.wf(),
            old(self).next_free() <= final(self).next_free() <= old(self).next_free() + budget,
            final(self).image().len() >= old(self).image().len(),
            room_on_path(old(self).image(), pointer, kv@.0, budget as nat) ==> (r matches Ok(res) && (
            page_at(final(self).image(), pointer) matches Ok(v) && page_fits(v) && (res matches Some(n)
                ==> page_fits(n@) && split_halves(v, n@)))),
            r matches Ok(res) ==> insert_pre(old(self).image(), pointer, kv@.0, budget as nat, lo, hi)
                ==> frame_outcome(
                old(self).image(),
                old(self).next_free(),
                final(self).image(),
                final(self).next_free(),
                pointer,
                kv@.0,
                budget as nat,
                lo,
                hi,
                match res {
                    Some(n) => Some(n@),
                    None => None,
                },
            ),
            r matches Ok(res) ==> insert_pre(old(self).image(), pointer, kv@.0, budget as nat, lo, hi)
                ==> insert_outcome(
                old(self).image(),
                old(self).next_free(),
                final(self).image(),
                final(self).next_free(),
                pointer,
                kv@,
                budget as nat,
                lo,
                hi,
                match res {
                    Some(n) => Some(n@),
                    None => None,
                },
            ),
        decreases budget, 0nat,
    {
        let ghost img0 = self.image();
        let ghost nf0 = self.next_free();
        let ghost key = kv@.0;
        let mut ipage = ipage;
        let ghost keys0 = key_views(ipage.keys@);
        let ghost children0 = ipage.children@;
        let ghost pre = insert_pre(img0, pointer, key, budget as nat, lo, hi);
        let ghost room = room_on_path(img0, pointer, key, budget as nat);
        let key_entry = KeyEntry::new(kv.key_bytes())?;
        proof {
            key_entry.lemma_holds(key);
            lemma_upper_key_view(ipage.keys@, key_entry, key);
            super::page::internal::lemma_upper_key_pos(ipage.keys@, key_entry);
            assert(ipage.keys@.take(ipage.nkey as int) =~= ipage.keys@);
            if pre {
                super::grow::lemma_internal_pre(img0, pointer, key, budget as nat, lo, hi);
            }
        }
        if ipage.nkey == 0 {
            // First insertion - create first leaf
            let mut first_leaf = BTreeLeafPage::new();
            first_leaf.insert_kv(kv)?;
            proof {
                lemma_node_encoding(PageNode::Leaf(first_leaf));
                lemma_page_size(leaf_view(first_leaf));
            }
            let leaf_pointer = self.allocate_block();
            self.write_leaf_at(leaf_pointer, &first_leaf)?;
            let first_key = KeyEntry::new(kv.key_bytes())?;
            proof {
                first_key.lemma_holds(kv@.0);
            }
            ipage.insert_kv(first_key, leaf_pointer)?;
            proof {
                lemma_node_encoding(PageNode::Internal(ipage));
                lemma_page_size(internal_view(ipage));
            }
            let ghost img_w = self.image();
            self.write_internal_at(pointer, &ipage)?;
            proof {
                lemma_write_then_read(img_w, pointer, internal_view(ipage), pointer);
            }
            return Ok(None);
        }
        let pos = match ipage.find_last_le(&key_entry) {
            Some(p) => p,
            None => 0,
        };
        if pos >= ipage.children.len() {
            return Err(DbError::InvalidFormat(string_of("Invalid child position")));
        }
        let child_pointer = ipage.children[pos];
        assert(pos == super::grow::route(keys0, key));
        let ghost clo = child_lo(keys0, key, lo);
        let ghost chi = child_hi(keys0, key, hi);
        let insert_result = self.insert_recursive(child_pointer, kv, budget - 1, Ghost(clo), Ghost(chi))?;
        let ghost img1 = self.image();
        let ghost nf1 = self.next_free();
        let ghost rc: Option<PageView> = match &insert_result {
            Some(n) => Some(n@),
            None => None,
        };
        proof {
            if pre {
                super::grow::lemma_internal_child_facts(img0, nf0, img1, nf1, pointer, kv@, budget as nat, lo, hi, rc);
            }
        }
        // Update key for this position
        let child = self.read_page_at_pointer(child_pointer)?;
        let ghost kl = first_key_view(child@)->Some_0;
        if let Some(first_key) = get_first_key(&child) {
            ipage.keys.set(pos, first_key);
        }
        let ghost k1 = key_views(ipage.keys@);
        proof {
            if pre {
                assert(k1 =~= keys0.update(pos as int, kl));
            }
        }
        let ghost img_pre = self.image();
        // Handle split if needed
        if let Some(new_child) = insert_result {
            let new_child_pointer = self.allocate_block();
            proof {
                lemma_node_encoding(new_child);
                if room {
                    lemma_page_size(new_child@);
                }
            }
            self.write_node_at(new_child_pointer, &new_child)?;
            let ghost before_keys = ipage.keys@;
            if let Some(new_key) = get_first_key(&new_child) {
                proof {
                    assert forall|i: int| 0 <= i < ipage.keys@.len() implies (#[trigger] ipage.keys@[i]).wf() by {}
                    lemma_upper_key_view(ipage.keys@, new_key, new_key@);
                    assert(ipage.keys@.take(ipage.nkey as int) =~= ipage.keys@);
                }
                ipage.insert_kv(new_key, new_child_pointer)?;
                proof {
                    if pre {
                        let kr = new_key@;
                        super::walk::lemma_upper_view_pos_bound(k1, kr);
                        let u = upper_view_pos(k1, kr);
                        assert(key_views(before_keys) == k1);
                        assert(0 <= u <= before_keys.len());
                        assert(ipage.keys@ == before_keys.insert(u, new_key));
                        assert forall|j: int| 0 <= j < ipage.keys@.len() implies key_views(ipage.keys@)[j] == k1.insert(u, kr)[j] by {
                            if j < u {
                                assert(ipage.keys@[j] == before_keys[j]);
                            } else if j > u {
                                assert(ipage.keys@[j] == before_keys[j - 1]);
                            }
                        }
                        assert(key_views(ipage.keys@) =~= k1.insert(u, kr));
                    }
                }
            }
        }
        let ghost img_mid = self.image();
        let ghost nf_final = self.next_free();
        let ghost v_full = internal_view(ipage);
        proof {
            lemma_node_encoding(PageNode::Internal(ipage));
            if room {
                lemma_page_size(internal_view(ipage));
            }
        }
        // Write updated internal page
        self.write_internal_at(pointer, &ipage)?;
        let ghost img3 = self.image();
        proof {
            lemma_write_then_read(img_mid, pointer, internal_view(ipage), pointer);
        }
        // Check if current node needs split
        if ipage.is_full() {
            let ghost h = (ipage.nkey / 2) as int;
            let new_ipage = ipage.split();
            proof {
                lemma_node_encoding(PageNode::Internal(ipage));
                lemma_node_encoding(PageNode::Internal(new_ipage));
                if room {
                    lemma_page_size(internal_view(ipage));
                }
            }
            self.write_internal_at(pointer, &ipage)?;
            proof {
                lemma_write_then_read(img3, pointer, internal_view(ipage), pointer);
            }
            proof {
                if pre {
                    assert(key_views(ipage.keys@) =~= v_full->Internal_keys.take(h));
                    assert(key_views(new_ipage.keys@) =~= v_full->Internal_keys.skip(h));
                    super::grow::lemma_internal_assemble(
                        img0,
                        nf0,
                        img1,
                        nf1,
                        img_mid,
                        nf_final,
                        img3,
                        self.image(),
                        pointer,
                        kv@,
                        budget as nat,
                        lo,
                        hi,
                        rc,
                        keys0,
                        children0,
                        walk_blocks(img0, child_pointer, key, (budget - 1) as nat),
                        v_full,
                        Some(internal_view(ipage)),
                        Some(internal_view(new_ipage)),
                        h,
                    );
                    super::frame::lemma_internal_frame(
                        img0,
                        nf0,
                        img1,
                        nf1,
                        img_mid,
                        nf_final,
                        img3,
                        self.image(),
                        pointer,
                        key,
                        budget as nat,
                        lo,
                        hi,
                        rc,
                        v_full,
                        Some(internal_view(ipage)),
                        Some(internal_view(new_ipage)),
                        h,
                    );
                }
            }
            Ok(Some(PageNode::Internal(new_ipage)))
        } else {
            proof {
                if pre {
                    super::grow::lemma_internal_assemble(
                        img0,
                        nf0,
                        img1,
                        nf1,
                        img_mid,
                        nf_final,
                        img3,
                        img3,
                        pointer,
                        kv@,
                        budget as nat,
                        lo,
                        hi,
                        rc,
                        keys0,
                        children0,
                        walk_blocks(img0, child_pointer, key, (budget - 1) as nat),
                        v_full,
                        None,
                        None,
                        0,
                    );
                    super::frame::lemma_internal_frame(
                        img0,
                        nf0,
                        img1,
                        nf1,
                        img_mid,
                        nf_final,
                        img3,
                        img3,
                        pointer,
                        key,
                        budget as nat,
                        lo,
                        hi,
                        rc,
                        v_full,
                        None,
                        None,
                        0,
                    );
                }
            }
            Ok(None)
        }
    }

    /// Inserts into the leaf page read at `pointer`, as `insert_recursive` does.
    fn insert_leaf(
        &mut self,
        pointer: u64,
        lpage: BTreeLeafPage,
        kv: KeyVal,
        Ghost(budget): Ghost<nat>,
        Ghost(lo): Ghost<Option<Seq<u8>>>,
        Ghost(hi): Ghost<Option<Seq<u8>>>,
    ) -> (r: DbResult<Option<PageNode>>)
        requires
            old(self).wf(),
            kv.wf(),
            leaf_ok(lpage),
            budget > 0,
            page_at(old(self).image(), pointer) == Ok::<PageView, DbErrorView>(leaf_view(lpage)),
        ensures
            blocks_full(old(self).image()) ==> blocks_full(final(self).image()),
            final(self).wf(),
            r matches Ok(Some(node)) ==> node.wf(),
            final(self).next_free() == old(self).next_free(),
            final(self).image().len() == old(self).image().len(),
            lpage.nkv < LEAF_MAX_KV ==> r is Ok,
            lpage.nkv >= LEAF_MAX_KV ==> (r matches Err(DbError::NodeFull)) && final(self).image()
                == old(self).image(),
            r matches Ok(res) ==> (page_at(final(self).image(), pointer) matches Ok(v) && page_fits(v)
                && (res matches Some(n) ==> page_fits(n@) && split_halves(v, n@))),
            r matches Ok(res) ==> (page_at(final(self).image(), pointer) matches Ok(v) && leaf_insert_result(
                kv_views(lpage.kv@),
                kv@,
                v,
                match res {
                    Some(n) => Some(n@),
                    None => None,
                },
            )),
            r matches Ok(res) ==> (insert_pre(old(self).image(), pointer, kv@.0, budget, lo, hi)
                ==> (page_at(final(self).image(), pointer) matches Ok(v) && halves_in_order(
                v,
                match res {
                    Some(n) => Some(n@),
                    None => None,
                },
                lo,
                hi,
            ))),
            r matches Ok(res) ==> insert_pre(old(self).image(), pointer, kv@.0, budget, lo, hi)
                ==> frame_outcome(
                old(self).image(),
                old(self).next_free(),
                final(self).image(),
                final(self).next_free(),
                pointer,
                kv@.0,
                budget,
                lo,
                hi,
                match res {
                    Some(n) => Some(n@),
                    None => None,
                },
            ),
            r matches Ok(res) ==> insert_pre(old(self).image(), pointer, kv@.0, budget, lo, hi)
                ==> insert_outcome(
                old(self).image(),
                old(self).next_free(),
                final(self).image(),
                final(self).next_free(),
                pointer,
                kv@,
                budget,
                lo,
                hi,
                match res {
                    Some(n) => Some(n@),
                    None => None,
                },
            ),
    {
        let ghost img0 = self.image();
        let ghost key = kv@.0;
        let mut lpage = lpage;
        let ghost kvs0 = kv_views(lpage.kv@);
        let ghost kv_before = lpage.kv@;
        proof {
            assert(lpage.entries() =~= lpage.kv@);
            lemma_upper_pos_view(lpage.kv@, kv);
            super::walk::lemma_upper_view_pos_bound(entry_keys(kvs0), key);
        }
        lpage.insert_kv(kv)?;
        let ghost u = upper_view_pos(entry_keys(kvs0), key);
        proof {
            assert(entry_keys(kvs0).len() == kv_before.len());
            assert(lpage.kv@ == kv_before.insert(u, kv));
            assert(kv_views(lpage.kv@) =~= kvs0.insert(u, kv@));
            lemma_node_encoding(PageNode::Leaf(lpage));
            lemma_page_size(leaf_view(lpage));
        }
        let ghost n_view = leaf_view(lpage);
        self.write_leaf_at(pointer, &lpage)?;
        let ghost img_a = self.image();
        proof {
            lemma_write_then_read(img0, pointer, leaf_view(lpage), pointer);
            if insert_pre(img0, pointer, key, budget, lo, hi) {
                lemma_page_at_valid(img0, pointer);
                assert(keys_fit(entry_keys(kvs0))) by {
                    assert forall|i: int| 0 <= i < entry_keys(kvs0).len() implies (#[trigger] entry_keys(kvs0)[i]).len() <= 12 by {
                        assert(kvs0[i].0.len() <= 12);
                    }
                }
                lemma_leaf_insert(kvs0, key, kv@.1, lo, hi);
            }
        }
        if lpage.is_full() {
            let ghost n = kv_views(lpage.kv@);
            let new_lpage = lpage.split();
            let ghost h = (n.len() / 2) as int;
            proof {
                assert(kv_views(lpage.kv@) =~= n.take(h));
                assert(kv_views(new_lpage.kv@) =~= n.skip(h));
                lemma_node_encoding(PageNode::Leaf(lpage));
                lemma_node_encoding(PageNode::Leaf(new_lpage));
                lemma_page_size(leaf_view(lpage));
            }
            self.write_leaf_at(pointer, &lpage)?;
            proof {
                lemma_write_then_read(img_a, pointer, leaf_view(lpage), pointer);
                if insert_pre(img0, pointer, key, budget, lo, hi) {
                    lemma_leaf_split(n, key, u, h);
                    assert(n.take(h)[0] == n[0]);
                    assert(n.skip(h)[0] == n[h]);
                    assert(entry_keys(n)[h] == n[h].0);
                    assert(entry_keys(n)[0] == n[0].0);
                    assert forall|q: u64| q != pointer && page_at(img0, q) is Ok implies #[trigger] page_at(self.image(), q) == page_at(img0, q) by {
                        super::grow::lemma_write_keeps(img0, pointer, n_view, q);
                        super::grow::lemma_write_keeps(img_a, pointer, leaf_view(lpage), q);
                    }
                    super::frame::lemma_leaf_frame(img0, self.next_free(), self.image(), pointer, key, kv@.1, budget, lo, hi, leaf_view(lpage), Some(leaf_view(new_lpage)), h);
                    assert(page_keys(leaf_view(lpage)) + page_keys(leaf_view(new_lpage)) =~= entry_keys(n));
                }
            }
            Ok(Some(PageNode::Leaf(new_lpage)))
        } else {
            proof {
                if insert_pre(img0, pointer, key, budget, lo, hi) {
                    assert(entry_keys(kv_views(lpage.kv@))[0] == kv_views(lpage.kv@)[0].0);
                    assert forall|q: u64| q != pointer && page_at(img0, q) is Ok implies #[trigger] page_at(self.image(), q) == page_at(img0, q) by {
                        super::grow::lemma_write_keeps(img0, pointer, n_view, q);
                    }
                    super::frame::lemma_leaf_frame(img0, self.next_free(), self.image(), pointer, key, kv@.1, budget, lo, hi, leaf_view(lpage), None, 0);
                    assert(page_keys(leaf_view(lpage)) + Seq::<Seq<u8>>::empty() =~= entry_keys(kv_views(lpage.kv@)));
                }
            }
            Ok(None)
        }
    }

    pub fn find(&self, key: &[u8]) -> (r: DbResult<Option<KeyVal>>)
        requires
            self.wf(),
            !(find_walk(self.image(), 0, key@, self.image().len()) is Stuck),
        ensures
            found_as(find_walk(self.image(), 0, key@, self.image().len()), r),
    {
        self.find_recursive(0, key, self.blocks.len())
    }

    /// Whether a lookup of `key` gets stuck at an internal page whose first key
    /// sorts after it; `find` is not to be called for such a key.
    pub fn lookup_sticks(&self, key: &[u8]) -> (r: bool)
        requires
            self.wf(),
        ensures
            r == (find_walk(self.image(), 0, key@, self.image().len()) is Stuck),
    {
        self.sticks_from(0, key, self.blocks.len())
    }

    fn sticks_from(&self, pointer: u64, key: &[u8], budget: usize) -> (r: bool)
        requires
            self.wf(),
        ensures
            r == (find_walk(self.image(), pointer, key@, budget as nat) is Stuck),
        decreases budget,
    {
        if budget == 0 {
            return false;
        }
        let node = match self.read_page_at_pointer(pointer) {
            Ok(n) => n,
            Err(_) => {
                return false;
            },
        };
        let ghost v = node@;
        assert(page_at(self.image(), pointer) == Ok::<PageView, DbErrorView>(v));
        match node {
            PageNode::Internal(ipage) => {
                let key_entry = match KeyEntry::new(key) {
                    Ok(k) => k,
                    Err(_) => {
                        return false;
                    },
                };
                proof {
                    lemma_upper_key_view(ipage.keys@, key_entry, key@);
                    super::page::internal::lemma_upper_key_pos(ipage.keys@, key_entry);
                    assert(ipage.keys@.take(ipage.nkey as int) =~= ipage.keys@);
                }
                match ipage.find_last_le(&key_entry) {
                    Some(pos) => {
                        if pos < ipage.children.len() {
                            self.sticks_from(ipage.children[pos], key, budget - 1)
                        } else {
                            false
                        }
                    },
                    None => true,
                }
            },
            PageNode::Leaf(_) => false,
        }
    }

    fn find_recursive(&self, pointer: u64, key: &[u8], budget: usize) -> (r: DbResult<Option<KeyVal>>)
        requires
            self.wf(),
            !(find_walk(self.image(), pointer, key@, budget as nat) is Stuck),
        ensures
            found_as(find_walk(self.image(), pointer, key@, budget as nat), r),
        decreases budget,
    {
        if budget == 0 {
            return Err(DbError::InvalidFormat(string_of("Cyclic page pointers")));
        }
        let node = self.read_page_at_pointer(pointer)?;
        let ghost v = node@;
        assert(page_at(self.image(), pointer) == Ok::<PageView, DbErrorView>(v));
        match node {
            PageNode::Internal(ipage) => {
                let key_entry = KeyEntry::new(key)?;
                proof {
                    lemma_upper_key_view(ipage.keys@, key_entry, key@);
                    super::page::internal::lemma_upper_key_pos(ipage.keys@, key_entry);
                    assert(ipage.keys@.take(ipage.nkey as int) =~= ipage.keys@);
                }
                let pos = match ipage.find_last_le(&key_entry) {
                    Some(p) => p,
                    None => {
                        assert(false);
                        0
                    },
                };
                assert(pos as int == upper_view_pos(key_views(ipage.keys@), key@) - 1);
                if pos < ipage.children.len() {
                    assert(find_walk(self.image(), pointer, key@, budget as nat) == find_walk(
                        self.image(),
                        ipage.children@[pos as int],
                        key@,
                        (budget - 1) as nat,
                    ));
                    self.find_recursive(ipage.children[pos], key, budget - 1)
                } else {
                    Ok(None)
                }
            },
            PageNode::Leaf(lpage) => {
                match lpage.find_exact(key) {
                    Some(i) => {
                        proof {
                            lemma_first_kv_index_is(kv_views(lpage.kv@), key@, i as int);
                        }
                        Ok(Some(lpage.kv[i]))
                    },
                    None => {
                        proof {
                            lemma_first_kv_index_none(kv_views(lpage.kv@), key@);
                        }
                        Ok(None)
                    },
                }
            },
        }
    }
}

/// The first key of a page, as a separator key.
pub open spec fn first_key_view(v: PageView) -> Option<Seq<u8>> {
    match v {
        PageView::Internal { keys, .. } => if keys.len() > 0 {
            Some(keys[0])
        } else {
            None
        },
        PageView::Leaf { kvs, .. } => if kvs.len() > 0 {
            Some(kvs[0].0)
        } else {
            None
        },
    }
}

fn get_first_key(node: &PageNode) -> (r: Option<KeyEntry>)
    requires
        node.wf(),
    ensures
        match first_key_view(node@) {
            Some(k) => r matches Some(e) && e.wf() && e@ == k,
            None => r is None,
        },
{
    match node {
        PageNode::Internal(page) => {
            if page.keys.len() > 0 {
                let k = page.keys[0];
                assert(key_views(page.keys@)[0] == k@);
                Some(k)
            } else {
                None
            }
        },
        PageNode::Leaf(page) => {
            if page.kv.len() > 0 {
                assert(page.kv@[0].wf());
                match KeyEntry::new(page.kv[0].key_bytes()) {
                    Ok(k) => {
                        proof {
                            k.lemma_holds(page.kv@[0]@.0);
                        }
                        Some(k)
                    },
                    Err(_) => {
                        assert(false);
                        None
                    },
                }
            } else {
                None
            }
        },
    }
}

/// `d` followed by zeros up to the size of a block.
fn pad_to_block(d: &[u8]) -> (r: Vec<u8>)
    requires
        d@.len() <= 4096,
    ensures
        r@ == pad_block(d@),
        r@.len() == 4096,
{
    let mut v = slice_to_vec(d);
    while v.len() < PAGE_SIZE
        invariant
            d@.len() <= v@.len() <= 4096,
            v@ == d@ + Seq::new((v@.len() - d@.len()) as nat, |i: int| 0u8),
        decreases 4096 - v@.len(),
    {
        v.push(0u8);
        assert(v@ =~= d@ + Seq::new((v@.len() - d@.len()) as nat, |i: int| 0u8));
    }
    v
}

} // verus!
