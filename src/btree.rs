//! Validation of an archived B-tree map with `u32` keys and `char` values.
//!
//! Layout (all words little-endian, 4 bytes):
//! - map header: `len` (entry count), then `root` (relative pointer to the root node);
//! - node: `meta` (top bit: inner flag, other bits: entry count), then `ptr` (relative
//!   pointer: the next leaf for a leaf, the left-edge child for an inner node), then
//!   `count` entries of two words: `(key, value)` in a leaf, `(key, child)` in an inner node.
//! A relative pointer resolves against the address of the word that holds it.
use vstd::prelude::*;
use vstd::set_lib::*;
use crate::bytes::{i32_le, read_u32_le, u32_le};
use crate::layout::{LayoutRaw, Node};
use crate::relptr::RelPtr;
use crate::context::{check_ptr_spec, span, widen, ArchiveValidator, ContextError};

verus! {

/// Fewest entries an inner node may hold.
pub const MIN_ENTRIES_PER_INNER_NODE: usize = 2;

/// Fewest entries a leaf node may hold.
pub const MIN_ENTRIES_PER_LEAF_NODE: usize = 1;

/// Size of the map header and of a node header, in bytes.
pub const HEADER_SIZE: usize = 8;

/// Size of one node entry, in bytes.
pub const ENTRY_SIZE: usize = 8;

/// Alignment of the map header and of every node.
pub const NODE_ALIGN: usize = 4;

/// The bit of `meta` that marks an inner node.
pub const INNER_FLAG: u32 = 0x8000_0000;

/// An error found while checking one leaf entry.
#[derive(Debug, Clone, Copy, PartialEq, Eq, Structural)]
pub enum LeafNodeEntryError {
    /// The key's bytes are not a key (keys are plain words, so this is never produced).
    KeyCheckError(u32),
    /// The value's word is not a Unicode scalar value.
    ValueCheckError(u32),
}

/// Errors that can occur while checking an archived B-tree.
#[derive(Debug, Clone, Copy, PartialEq, Eq, Structural)]
pub enum ArchivedBTreeMapError {
    /// A key's bytes are not a key (keys are plain words, so this is never produced).
    KeyCheckError(u32),
    /// A value's word is not a Unicode scalar value.
    ValueCheckError(u32),
    /// An inner node holds fewer than the minimum number of entries.
    TooFewInnerNodeEntries(usize),
    /// A leaf node holds fewer than the minimum number of entries.
    TooFewLeafNodeEntries(usize),
    /// The first key of a child differs from the key of its inner-node entry.
    MismatchedInnerChildKey,
    /// The leaf level of the tree contains an inner node.
    InnerNodeInLeafLevel,
    /// The leaves are not all at the same depth.
    InvalidLeafNodeDepth { expected: usize, actual: usize },
    /// A leaf holds its entries out of order.
    UnsortedLeafNodeEntries,
    /// A leaf's forward pointer does not lead to the next leaf.
    UnlinkedLeafNode,
    /// A leaf with lesser keys follows one with greater keys.
    UnsortedLeafNode,
    /// The forward pointer of the last leaf is not null.
    LastLeafForwardPointerNotNull,
    /// The entry count in the header differs from the number of entries in the leaves.
    LengthMismatch { expected: usize, actual: usize },
    /// A context operation failed.
    ContextError(ContextError),
}

/// A node reached by the walk: where it is, its kind, its entry count and its depth.
#[derive(Debug, Clone, Copy, PartialEq, Eq)]
pub struct NodeRef {
    pub addr: usize,
    pub is_inner: bool,
    pub count: usize,
    pub depth: usize,
}

/// Whether a word is a Unicode scalar value.
pub open spec fn is_scalar(v: int) -> bool {
    v < 0xD800 || (0xE000 <= v && v <= 0x10FFFF)
}

/// The inner flag and entry count packed into `meta`.
pub open spec fn split_meta_spec(meta: int) -> (bool, int) {
    (meta >= 0x8000_0000, meta % 0x8000_0000)
}

pub open spec fn node_size(count: int) -> int {
    8 + 8 * count
}

pub open spec fn node_meta(b: Seq<u8>, a: int) -> int {
    u32_le(b, a)
}

/// Where the `ptr` word of the node at `a` leads.
pub open spec fn link_target(b: Seq<u8>, a: int) -> int {
    a + 4 + i32_le(b, a + 4)
}

/// The key of entry `i` of the node at `a`.
pub open spec fn entry_key(b: Seq<u8>, a: int, i: int) -> int {
    u32_le(b, a + 8 + 8 * i)
}

/// The second word of entry `i` of the node at `a` (a value in a leaf).
pub open spec fn entry_word(b: Seq<u8>, a: int, i: int) -> int {
    u32_le(b, a + 12 + 8 * i)
}

/// Entry `j` of the node at `a` has a key no lower than entry `j - 1`.
pub open spec fn key_step_ok(b: Seq<u8>, a: int, j: int) -> bool {
    entry_key(b, a, j - 1) <= entry_key(b, a, j)
}

/// Where the child pointer of entry `i` of the inner node at `a` leads.
pub open spec fn child_target(b: Seq<u8>, a: int, i: int) -> int {
    a + 12 + 8 * i + i32_le(b, a + 12 + 8 * i)
}

/// `n` describes a well-formed node of `b`: inside it, no larger than `isize::MAX`,
/// aligned, with the kind and count its `meta` gives, enough entries, and (for a leaf) values that are scalars.
pub open spec fn node_ok(b: Seq<u8>, n: NodeRef) -> bool {
    &&& n.addr + node_size(n.count as int) <= b.len()
    &&& node_size(n.count as int) <= isize::MAX
    &&& n.addr % 4 == 0
    &&& split_meta_spec(node_meta(b, n.addr as int)) == (n.is_inner, n.count as int)
    &&& if n.is_inner {
        n.count >= MIN_ENTRIES_PER_INNER_NODE
    } else {
        &&& n.count >= MIN_ENTRIES_PER_LEAF_NODE
        &&& forall|i: int| 0 <= i < n.count ==> is_scalar(#[trigger] entry_word(b, n.addr as int, i))
    }
}

/// What a node-level error says of the buffer: the rule that some well-formed node of
/// `b` breaks.
pub open spec fn node_error_cause(b: Seq<u8>, e: ArchivedBTreeMapError) -> bool {
    match e {
        ArchivedBTreeMapError::KeyCheckError(_) => false,
        ArchivedBTreeMapError::ValueCheckError(v) => !is_scalar(v as int),
        ArchivedBTreeMapError::TooFewInnerNodeEntries(c) => c < MIN_ENTRIES_PER_INNER_NODE,
        ArchivedBTreeMapError::TooFewLeafNodeEntries(c) => c < MIN_ENTRIES_PER_LEAF_NODE,
        ArchivedBTreeMapError::MismatchedInnerChildKey => exists|n: NodeRef, j: int|
            node_ok(b, n) && n.is_inner && 0 <= j < n.count && entry_key(b, n.addr as int, j)
                != entry_key(b, child_target(b, n.addr as int, j), 0),
        ArchivedBTreeMapError::InnerNodeInLeafLevel => exists|n: NodeRef| node_ok(b, n) && n.is_inner,
        ArchivedBTreeMapError::InvalidLeafNodeDepth { expected, actual } => expected != actual,
        ArchivedBTreeMapError::UnsortedLeafNodeEntries => exists|n: NodeRef, j: int|
            node_ok(b, n) && !n.is_inner && 0 < j < n.count && !key_step_ok(b, n.addr as int, j),
        ArchivedBTreeMapError::UnlinkedLeafNode => exists|n: NodeRef, m: NodeRef|
            node_ok(b, n) && node_ok(b, m) && !n.is_inner && !m.is_inner && link_target(
                b,
                n.addr as int,
            ) != m.addr,
        ArchivedBTreeMapError::UnsortedLeafNode => exists|n: NodeRef, m: NodeRef|
            node_ok(b, n) && node_ok(b, m) && !n.is_inner && !m.is_inner && link_target(
                b,
                n.addr as int,
            ) == m.addr && entry_key(b, m.addr as int, 0) < entry_key(
                b,
                n.addr as int,
                n.count - 1,
            ),
        ArchivedBTreeMapError::LastLeafForwardPointerNotNull => exists|n: NodeRef|
            node_ok(b, n) && !n.is_inner && i32_le(b, n.addr + 4) != 0,
        ArchivedBTreeMapError::LengthMismatch { .. } => false,
        ArchivedBTreeMapError::ContextError(_) => true,
    }
}

/// What an error of the check of the map at `map_addr` says of the buffer.
pub open spec fn error_cause(b: Seq<u8>, map_addr: int, e: ArchivedBTreeMapError) -> bool {
    match e {
        ArchivedBTreeMapError::LengthMismatch { expected, actual } => expected == u32_le(b, map_addr)
            && actual != expected,
        _ => node_error_cause(b, e),
    }
}

/// Splits a node's `meta` word into its inner flag and entry count.
pub fn split_meta(meta: u32) -> (r: (bool, usize))
    ensures
        (r.0, r.1 as int) == split_meta_spec(meta as int),
{
    if meta >= INNER_FLAG {
        (true, (meta - INNER_FLAG) as usize)
    } else {
        (false, meta as usize)
    }
}

/// Checks the leaf entry at byte `at`: its value must be a Unicode scalar value.
pub fn check_leaf_entry(buf: &[u8], at: usize) -> (r: Result<(), LeafNodeEntryError>)
    requires
        at + 8 <= buf@.len(),
    ensures
        r is Ok <==> is_scalar(u32_le(buf@, at + 4)),
        r matches Err(e) ==> e matches LeafNodeEntryError::ValueCheckError(v) && v as int
            == u32_le(buf@, at + 4),
{
    let _n = buf.len();
    let v = read_u32_le(buf, at + 4);
    if v < 0xD800 || (0xE000 <= v && v <= 0x10FFFF) {
        Ok(())
    } else {
        Err(LeafNodeEntryError::ValueCheckError(v))
    }
}

/// Checks a node whose header lies inside `buf` at `addr` and whose `count` entries fit:
/// enough entries for its kind, and valid values in a leaf.
pub fn check_and_classify(buf: &[u8], addr: usize, depth: usize) -> (r: Result<
    NodeRef,
    ArchivedBTreeMapError,
>)
    requires
        addr % 4 == 0,
        addr + node_size(split_meta_spec(node_meta(buf@, addr as int)).1) <= buf@.len(),
        node_size(split_meta_spec(node_meta(buf@, addr as int)).1) <= isize::MAX,
    ensures
        r matches Ok(n) ==> node_ok(buf@, n) && n.addr == addr && n.depth == depth,
        r matches Err(e) ==> {
            let (inner, count) = split_meta_spec(node_meta(buf@, addr as int));
            match e {
                ArchivedBTreeMapError::TooFewInnerNodeEntries(c) => inner && c == count && count
                    < MIN_ENTRIES_PER_INNER_NODE,
                ArchivedBTreeMapError::TooFewLeafNodeEntries(c) => !inner && c == count && count
                    < MIN_ENTRIES_PER_LEAF_NODE,
                ArchivedBTreeMapError::ValueCheckError(v) => !inner && exists|i: int|
                    0 <= i < count && entry_word(buf@, addr as int, i) == v && !is_scalar(v as int),
                _ => false,
            }
        },
        (r is Ok) <==> ({
            let (inner, count) = split_meta_spec(node_meta(buf@, addr as int));
            node_ok(buf@, NodeRef { addr, is_inner: inner, count: count as usize, depth })
        }),
{
    let buf_len = buf.len();
    let meta = read_u32_le(buf, addr);
    let (is_inner, count) = split_meta(meta);
    if is_inner {
        if count < MIN_ENTRIES_PER_INNER_NODE {
            return Err(ArchivedBTreeMapError::TooFewInnerNodeEntries(count));
        }
    } else {
        if count < MIN_ENTRIES_PER_LEAF_NODE {
            return Err(ArchivedBTreeMapError::TooFewLeafNodeEntries(count));
        }
        let mut i: usize = 0;
        while i < count
            invariant
                i <= count,
                buf_len == buf@.len(),
                !is_inner,
                count >= MIN_ENTRIES_PER_LEAF_NODE,
                addr % 4 == 0,
                split_meta_spec(node_meta(buf@, addr as int)) == (is_inner, count as int),
                addr + 8 + 8 * count <= buf@.len(),
                forall|j: int| 0 <= j < i ==> is_scalar(#[trigger] entry_word(buf@, addr as int, j)),
            decreases count - i,
        {
            match check_leaf_entry(buf, addr + 8 + 8 * i) {
                Ok(()) => {},
                Err(LeafNodeEntryError::KeyCheckError(k)) => {
                    return Err(ArchivedBTreeMapError::KeyCheckError(k));
                },
                Err(LeafNodeEntryError::ValueCheckError(v)) => {
                    assert(entry_word(buf@, addr as int, i as int) == v as int);
                    assert(!is_scalar(entry_word(buf@, addr as int, i as int)));
                    return Err(ArchivedBTreeMapError::ValueCheckError(v));
                },
            }
            i = i + 1;
        }
    }
    Ok(NodeRef { addr, is_inner, count, depth })
}

/// The node that the relative pointer stored at `base` leads to.
pub open spec fn pointee(b: Seq<u8>, base: int) -> int {
    base + i32_le(b, base)
}

/// The entry count that the node at `a` declares.
pub open spec fn declared_count(b: Seq<u8>, a: int) -> int {
    split_meta_spec(node_meta(b, a)).1
}

/// Why claiming the node at `t` in a context with range `[lo, hi)` and claimed bytes
/// `owned` may fail with `e`.
pub open spec fn claim_refused(
    b: Seq<u8>,
    lo: int,
    hi: int,
    owned: Set<int>,
    t: int,
    e: ContextError,
) -> bool {
    let header = check_ptr_spec(b.len() as int, t, 0, 8, 4);
    if header is Err {
        header == Err::<int, ContextError>(e)
    } else {
        let size = node_size(declared_count(b, t));
        if t + size > b.len() || size > isize::MAX {
            e == ContextError::Overrun
        } else if !(lo <= t && t + size <= hi) {
            e == ContextError::SubtreeOutOfRange
        } else {
            e == ContextError::DuplicateClaim && exists|x: int|
                span(t, size).contains(x) && owned.contains(x)
        }
    }
}

/// Resolves the relative pointer stored at `base`, claims the node it leads to as
/// owned, and checks that node.
pub fn claim_node(buf: &[u8], ctx: &mut ArchiveValidator, base: usize, depth: usize) -> (r: Result<
    NodeRef,
    ArchivedBTreeMapError,
>)
    requires
        old(ctx).wf(),
        old(ctx).buf_len() == buf@.len(),
        base + 4 <= buf@.len(),
    ensures
        final(ctx).wf(),
        final(ctx).buf_len() == old(ctx).buf_len(),
        final(ctx).lo() == old(ctx).lo(),
        final(ctx).hi() == old(ctx).hi(),
        final(ctx).depth() == old(ctx).depth(),
        final(ctx).shared() == old(ctx).shared(),
        old(ctx).owned().subset_of(final(ctx).owned()),
        r matches Ok(n) ==> {
            &&& node_ok(buf@, n)
            &&& n.addr == pointee(buf@, base as int)
            &&& n.depth == depth
            &&& old(ctx).lo() <= n.addr && n.addr + node_size(n.count as int) <= old(ctx).hi()
            &&& forall|x: int|
                span(n.addr as int, node_size(n.count as int)).contains(x) ==> !old(
                    ctx,
                ).owned().contains(x)
            &&& final(ctx).owned() == old(ctx).owned().union(
                span(n.addr as int, node_size(n.count as int)),
            )
        },
        r matches Err(e) ==> {
            let t = pointee(buf@, base as int);
            match e {
                ArchivedBTreeMapError::ContextError(c) => claim_refused(
                    buf@,
                    old(ctx).lo(),
                    old(ctx).hi(),
                    old(ctx).owned(),
                    t,
                    c,
                ),
                _ => {
                    &&& check_ptr_spec(
                        buf@.len() as int,
                        t,
                        0,
                        node_size(declared_count(buf@, t)),
                        4,
                    ) == Ok::<int, ContextError>(t)
                    &&& !node_ok(
                        buf@,
                        NodeRef {
                            addr: t as usize,
                            is_inner: split_meta_spec(node_meta(buf@, t)).0,
                            count: declared_count(buf@, t) as usize,
                            depth,
                        },
                    )
                    &&& (e is ValueCheckError || e is TooFewInnerNodeEntries
                        || e is TooFewLeafNodeEntries)
                    &&& node_error_cause(buf@, e)
                },
            }
        },
{
    let _n = buf.len();
    let rel = RelPtr::read(buf, base);
    let t = match ctx.check_rel_ptr(&rel, HEADER_SIZE, NODE_ALIGN) {
        Ok(t) => t,
        Err(e) => {
            return Err(ArchivedBTreeMapError::ContextError(e));
        },
    };
    let meta = read_u32_le(buf, t);
    let (_, count) = split_meta(meta);
    let size = match Node::layout_raw(count) {
        Some(layout) => layout.size,
        None => {
            return Err(ArchivedBTreeMapError::ContextError(ContextError::Overrun));
        },
    };
    let p = match ctx.claim_owned_ptr(rel.base(), rel.offset(), size, NODE_ALIGN) {
        Ok(p) => p,
        Err(e) => {
            return Err(ArchivedBTreeMapError::ContextError(e));
        },
    };
    check_and_classify(buf, p, depth)
}

/// Total bytes spanned by the first `n` nodes of `ns`.
pub open spec fn sizes(ns: Seq<NodeRef>, n: int) -> int
    decreases n,
{
    if n <= 0 {
        0
    } else {
        sizes(ns, n - 1) + node_size(ns[n - 1].count as int)
    }
}

/// Total entries held by the nodes `ns[lo..hi]`.
pub open spec fn entry_counts(ns: Seq<NodeRef>, lo: int, hi: int) -> int
    decreases hi - lo,
{
    if hi <= lo {
        0
    } else {
        entry_counts(ns, lo, hi - 1) + ns[hi - 1].count
    }
}

/// The byte ranges of two nodes do not meet.
pub open spec fn apart(m: NodeRef, n: NodeRef) -> bool {
    m.addr + node_size(m.count as int) <= n.addr || n.addr + node_size(n.count as int) <= m.addr
}

/// Index in breadth-first order of the first child of inner node `ns[k]`, when the
/// nodes before `k` are all inner: the root, then every child of `ns[0..k]`.
pub open spec fn child_start(ns: Seq<NodeRef>, k: int) -> int
    decreases k,
{
    if k <= 0 {
        1
    } else {
        child_start(ns, k - 1) + ns[k - 1].count + 1
    }
}

/// Entry `j` of inner node `ns[k]` leads to the node listed for it, one level deeper,
/// whose first key is the entry's key.
pub open spec fn child_ok(b: Seq<u8>, ns: Seq<NodeRef>, k: int, j: int) -> bool {
    let c = child_start(ns, k) + 1 + j;
    &&& ns[c].addr == child_target(b, ns[k].addr as int, j)
    &&& ns[c].depth == ns[k].depth + 1
    &&& entry_key(b, ns[k].addr as int, j) == entry_key(b, ns[c].addr as int, 0)
}

/// Inner node `ns[k]`'s left-edge child and entry children are listed, in order, from
/// `child_start(ns, k)` on.
pub open spec fn links_ok(b: Seq<u8>, ns: Seq<NodeRef>, k: int) -> bool {
    let c = child_start(ns, k);
    &&& c + ns[k].count + 1 <= ns.len()
    &&& ns[c].addr == link_target(b, ns[k].addr as int)
    &&& ns[c].depth == ns[k].depth + 1
    &&& forall|j: int| 0 <= j < ns[k].count ==> #[trigger] child_ok(b, ns, k, j)
}

proof fn lemma_child_start_prefix(s1: Seq<NodeRef>, s2: Seq<NodeRef>, k: int)
    requires
        0 <= k <= s1.len(),
        k <= s2.len(),
        forall|i: int| 0 <= i < k ==> s1[i] == s2[i],
    ensures
        child_start(s1, k) == child_start(s2, k),
    decreases k,
{
    if k > 0 {
        lemma_child_start_prefix(s1, s2, k - 1);
    }
}

proof fn lemma_child_start_grows(ns: Seq<NodeRef>, k: int)
    requires
        0 <= k,
    ensures
        child_start(ns, k) >= k + 1,
    decreases k,
{
    if k > 0 {
        lemma_child_start_grows(ns, k - 1);
    }
}

/// Appending a node keeps the links of the inner nodes `ns[0..upto]`.
proof fn lemma_links_push(b: Seq<u8>, ns: Seq<NodeRef>, x: NodeRef, upto: int)
    requires
        0 <= upto <= ns.len(),
        forall|k: int| 0 <= k < upto ==> #[trigger] links_ok(b, ns, k),
    ensures
        forall|k: int| 0 <= k < upto ==> #[trigger] links_ok(b, ns.push(x), k),
{
    let ps = ns.push(x);
    assert forall|k: int| 0 <= k < upto implies #[trigger] links_ok(b, ps, k) by {
        assert(links_ok(b, ns, k));
        lemma_child_start_prefix(ns, ps, k);
        lemma_child_start_grows(ns, k);
        let c = child_start(ns, k);
        assert(ps[k] == ns[k]);
        assert(ps[c] == ns[c]);
        assert forall|j: int| 0 <= j < ps[k].count implies #[trigger] child_ok(b, ps, k, j) by {
            assert(child_ok(b, ns, k, j));
            assert(ps[c + 1 + j] == ns[c + 1 + j]);
        }
    }
}

/// Appending a node keeps the first `upto` entry links of inner node `ns[k]`.
proof fn lemma_child_links_push(b: Seq<u8>, ns: Seq<NodeRef>, x: NodeRef, k: int, upto: int)
    requires
        0 <= k < ns.len(),
        0 <= upto,
        child_start(ns, k) + 1 + upto <= ns.len(),
        forall|j: int| 0 <= j < upto ==> #[trigger] child_ok(b, ns, k, j),
    ensures
        forall|j: int| 0 <= j < upto ==> #[trigger] child_ok(b, ns.push(x), k, j),
        child_start(ns.push(x), k) == child_start(ns, k),
{
    let ps = ns.push(x);
    lemma_child_start_prefix(ns, ps, k);
    lemma_child_start_grows(ns, k);
    let c = child_start(ns, k);
    assert(ps[k] == ns[k]);
    assert forall|j: int| 0 <= j < upto implies #[trigger] child_ok(b, ps, k, j) by {
        assert(child_ok(b, ns, k, j));
        assert(ps[c + 1 + j] == ns[c + 1 + j]);
    }
}

/// What holds of the nodes that the walk of a valid map reached, in breadth-first
/// order, with its leaves from `first_leaf` on.
pub open spec fn valid_layout(b: Seq<u8>, map_addr: int, ns: Seq<NodeRef>, first_leaf: int) -> bool {
    &&& layout_shape(b, map_addr, ns, first_leaf)
    &&& u32_le(b, map_addr) == entry_counts(ns, first_leaf, ns.len() as int)
}

/// `valid_layout` but for the entry count in the header.
pub open spec fn layout_shape(b: Seq<u8>, map_addr: int, ns: Seq<NodeRef>, first_leaf: int) -> bool {
    &&& layout_frame(b, map_addr, ns, first_leaf)
    &&& leaves_sorted(b, ns, first_leaf)
}

/// Within each of the leaves `ns[head..]`, keys do not decrease.
pub open spec fn leaves_sorted(b: Seq<u8>, ns: Seq<NodeRef>, head: int) -> bool {
    forall|k: int, j: int|
        head <= k < ns.len() && 0 < j < ns[k].count ==> #[trigger] key_step_ok(b, ns[k].addr as int, j)
}

/// `layout_shape` but for the order of keys inside each leaf.
pub open spec fn layout_frame(b: Seq<u8>, map_addr: int, ns: Seq<NodeRef>, first_leaf: int) -> bool {
    &&& 1 <= ns.len()
    &&& 0 <= first_leaf < ns.len()
    &&& ns[0].addr == pointee(b, map_addr + 4)
    &&& ns[0].depth == 0
    &&& forall|k: int| 0 <= k < ns.len() ==> node_ok(b, #[trigger] ns[k])
    &&& forall|k: int, l: int| 0 <= k < l < ns.len() ==> apart(#[trigger] ns[k], #[trigger] ns[l])
    &&& forall|k: int| 0 <= k < first_leaf ==> (#[trigger] ns[k]).is_inner
    &&& forall|k: int| first_leaf <= k < ns.len() ==> !(#[trigger] ns[k]).is_inner
    &&& forall|k: int| first_leaf <= k < ns.len() ==> (#[trigger] ns[k]).depth == ns[first_leaf].depth
    &&& forall|k: int|
        first_leaf <= k < ns.len() - 1 ==> #[trigger] link_target(b, ns[k].addr as int) == ns[k
            + 1].addr && entry_key(b, ns[k].addr as int, ns[k].count - 1) <= entry_key(
            b,
            ns[k + 1].addr as int,
            0,
        )
    &&& i32_le(b, ns[ns.len() - 1].addr + 4) == 0
    &&& forall|k: int| 0 <= k < first_leaf ==> #[trigger] links_ok(b, ns, k)
    &&& ns.len() == child_start(ns, first_leaf)
}

proof fn lemma_sizes_bounds(ns: Seq<NodeRef>, i: int, n: int)
    requires
        0 <= i <= n,
    ensures
        sizes(ns, i) <= sizes(ns, n),
        sizes(ns, n) >= 8 * n,
    decreases n,
{
    if n > 0 {
        if i < n {
            lemma_sizes_bounds(ns, i, n - 1);
        } else {
            lemma_sizes_bounds(ns, i - 1, n - 1);
        }
    }
}

proof fn lemma_counts_bound(ns: Seq<NodeRef>, lo: int, hi: int)
    requires
        0 <= lo <= hi,
    ensures
        0 <= entry_counts(ns, lo, hi) <= sizes(ns, hi),
    decreases hi - lo,
{
    lemma_sizes_bounds(ns, 0, hi);
    if hi > lo {
        lemma_counts_bound(ns, lo, hi - 1);
    }
}

proof fn lemma_sizes_push(ns: Seq<NodeRef>, n: NodeRef)
    ensures
        sizes(ns.push(n), ns.len() + 1 as int) == sizes(ns, ns.len() as int) + node_size(n.count as int),
        forall|i: int| 0 <= i <= ns.len() ==> sizes(ns.push(n), i) == sizes(ns, i),
{
    assert forall|i: int| 0 <= i <= ns.len() implies sizes(ns.push(n), i) == sizes(ns, i) by {
        lemma_sizes_prefix(ns, n, i);
    }
}

proof fn lemma_sizes_prefix(ns: Seq<NodeRef>, n: NodeRef, i: int)
    requires
        0 <= i <= ns.len(),
    ensures
        sizes(ns.push(n), i) == sizes(ns, i),
    decreases i,
{
    if i > 0 {
        lemma_sizes_prefix(ns, n, i - 1);
    }
}

/// Claiming `size` fresh bytes at `t` adds exactly `size` to the claimed set.
proof fn lemma_claim_len(owned: Set<int>, t: int, size: int)
    requires
        owned.finite(),
        size >= 0,
        forall|x: int| span(t, size).contains(x) ==> !owned.contains(x),
    ensures
        owned.union(span(t, size)).len() == owned.len() + size,
{
    lemma_int_range(t, t + size);
    assert(owned.disjoint(span(t, size)));
    lemma_set_disjoint_lens(owned, span(t, size));
}

/// The nodes of a validated map in breadth-first order; its leaves start at `first_leaf`
/// and run in key order.
pub struct BTreeMapLayout {
    pub nodes: Vec<NodeRef>,
    pub first_leaf: usize,
}

/// Pushes a freshly claimed node, keeping the facts the walk maintains.
proof fn lemma_push_node(
    ns: Seq<NodeRef>,
    n: NodeRef,
    owned: Set<int>,
    base_len: int,
)
    requires
        owned.finite(),
        forall|k: int, l: int| 0 <= k < l < ns.len() ==> apart(#[trigger] ns[k], #[trigger] ns[l]),
        forall|k: int, x: int|
            0 <= k < ns.len() && #[trigger] span(ns[k].addr as int, node_size(ns[k].count as int)).contains(x)
                ==> owned.contains(x),
        owned.len() == base_len + sizes(ns, ns.len() as int),
        forall|x: int| span(n.addr as int, node_size(n.count as int)).contains(x) ==> !owned.contains(x),
    ensures
        forall|k: int, l: int|
            0 <= k < l < ns.push(n).len() ==> apart(#[trigger] ns.push(n)[k], #[trigger] ns.push(n)[l]),
        forall|k: int, x: int|
            0 <= k < ns.push(n).len() && #[trigger] span(
                ns.push(n)[k].addr as int,
                node_size(ns.push(n)[k].count as int),
            ).contains(x)
                ==> owned.union(span(n.addr as int, node_size(n.count as int))).contains(x),
        owned.union(span(n.addr as int, node_size(n.count as int))).len() == base_len + sizes(
            ns.push(n),
            ns.push(n).len() as int,
        ),
{
    let ps = ns.push(n);
    let sp = span(n.addr as int, node_size(n.count as int));
    lemma_claim_len(owned, n.addr as int, node_size(n.count as int));
    lemma_sizes_push(ns, n);
    assert forall|k: int, l: int| 0 <= k < l < ps.len() implies apart(#[trigger] ps[k], #[trigger] ps[l]) by {
        if l == ns.len() {
            let m = ns[k];
            if !apart(m, n) {
                let x = if m.addr >= n.addr { m.addr as int } else { n.addr as int };
                assert(span(m.addr as int, node_size(m.count as int)).contains(x));
                assert(sp.contains(x));
            }
        }
    }
}

/// What the walk keeps of the nodes `ns` it has reached so far: each is well-formed,
/// no deeper than its index, inside `[lo, hi)`, apart from the others, and claimed in
/// `owned` but not in `owned0`, the claims held before the walk.
pub open spec fn walk_ok(
    b: Seq<u8>,
    ns: Seq<NodeRef>,
    owned0: Set<int>,
    owned: Set<int>,
    lo: int,
    hi: int,
) -> bool {
    &&& ns.len() <= b.len()
    &&& owned0.finite()
    &&& owned.finite()
    &&& owned0.subset_of(owned)
    &&& owned.len() == owned0.len() + sizes(ns, ns.len() as int)
    &&& forall|k: int| 0 <= k < ns.len() ==> node_ok(b, #[trigger] ns[k])
    &&& forall|k: int| 0 <= k < ns.len() ==> (#[trigger] ns[k]).depth <= k
    &&& forall|k: int, l: int| 0 <= k < l < ns.len() ==> apart(#[trigger] ns[k], #[trigger] ns[l])
    &&& forall|k: int, x: int|
        0 <= k < ns.len() && #[trigger] span(ns[k].addr as int, node_size(ns[k].count as int)).contains(
            x,
        ) ==> owned.contains(x) && !owned0.contains(x)
    &&& forall|k: int|
        0 <= k < ns.len() ==> lo <= (#[trigger] ns[k]).addr && ns[k].addr + node_size(
            ns[k].count as int,
        ) <= hi
    &&& forall|x: int|
        owned.contains(x) ==> owned0.contains(x) || exists|k: int|
            0 <= k < ns.len() && #[trigger] span(ns[k].addr as int, node_size(ns[k].count as int)).contains(
                x,
            )
}

/// Claims the node that the relative pointer at `base` leads to, checks it, and
/// appends it to `nodes` at `depth`.
fn push_child(
    buf: &[u8],
    ctx: &mut ArchiveValidator,
    nodes: &mut Vec<NodeRef>,
    Ghost(owned0): Ghost<Set<int>>,
    base: usize,
    depth: usize,
) -> (r: Result<NodeRef, ArchivedBTreeMapError>)
    requires
        old(ctx).wf(),
        old(ctx).buf_len() == buf@.len(),
        base + 4 <= buf@.len(),
        depth <= old(nodes)@.len(),
        walk_ok(buf@, old(nodes)@, owned0, old(ctx).owned(), old(ctx).lo(), old(ctx).hi()),
    ensures
        final(ctx).wf(),
        final(ctx).buf_len() == old(ctx).buf_len(),
        final(ctx).lo() == old(ctx).lo(),
        final(ctx).hi() == old(ctx).hi(),
        final(ctx).depth() == old(ctx).depth(),
        final(ctx).shared() == old(ctx).shared(),
        old(ctx).owned().subset_of(final(ctx).owned()),
        r matches Ok(n) ==> {
            &&& final(nodes)@ == old(nodes)@.push(n)
            &&& n.addr == pointee(buf@, base as int)
            &&& n.depth == depth
            &&& walk_ok(buf@, final(nodes)@, owned0, final(ctx).owned(), old(ctx).lo(), old(ctx).hi())
        },
        r matches Err(e) ==> (e is ContextError || e is ValueCheckError || e is TooFewInnerNodeEntries
            || e is TooFewLeafNodeEntries) && node_error_cause(buf@, e),
        r matches Err(ArchivedBTreeMapError::ContextError(c)) ==> claim_refused(
            buf@,
            old(ctx).lo(),
            old(ctx).hi(),
            old(ctx).owned(),
            pointee(buf@, base as int),
            c,
        ),
        r matches Err(e) ==> (e is ContextError || !node_ok(
            buf@,
            NodeRef {
                addr: pointee(buf@, base as int) as usize,
                is_inner: split_meta_spec(node_meta(buf@, pointee(buf@, base as int))).0,
                count: declared_count(buf@, pointee(buf@, base as int)) as usize,
                depth,
            },
        )),
{
    let ghost owned_before = ctx.owned();
    let n = claim_node(buf, ctx, base, depth)?;
    proof {
        lemma_push_node(nodes@, n, owned_before, owned0.len() as int);
        lemma_sizes_bounds(nodes@.push(n), 0, nodes@.len() + 1 as int);
        ctx.lemma_owned_bounded();
        let ps = nodes@.push(n);
        assert forall|k: int, x: int|
            0 <= k < ps.len() && #[trigger] span(ps[k].addr as int, node_size(ps[k].count as int)).contains(x)
            implies ctx.owned().contains(x) && !owned0.contains(x) by {
            if k == nodes@.len() {
                assert(!owned_before.contains(x));
            }
        }
        assert(owned0.subset_of(ctx.owned()));
        assert forall|x: int| ctx.owned().contains(x) implies owned0.contains(x) || exists|k: int|
            0 <= k < ps.len() && #[trigger] span(ps[k].addr as int, node_size(ps[k].count as int)).contains(
                x,
            ) by {
            if span(n.addr as int, node_size(n.count as int)).contains(x) {
                assert(ps[nodes@.len() as int] == n);
            } else if !owned0.contains(x) {
                assert(owned_before.contains(x));
                let k = choose|k: int|
                    0 <= k < nodes@.len() && #[trigger] span(
                        nodes@[k].addr as int,
                        node_size(nodes@[k].count as int),
                    ).contains(x);
                assert(ps[k] == nodes@[k]);
            }
        }
    }
    nodes.push(n);
    Ok(n)
}

/// Checks that the keys of the leaf at `addr` with `count` entries do not decrease.
fn check_leaf_order(buf: &[u8], addr: usize, count: usize) -> (r: Result<(), ArchivedBTreeMapError>)
    requires
        addr + 8 + 8 * count <= buf@.len(),
    ensures
        r is Ok <==> forall|j: int| 0 < j < count ==> #[trigger] key_step_ok(buf@, addr as int, j),
        r is Err ==> r == Err::<(), ArchivedBTreeMapError>(ArchivedBTreeMapError::UnsortedLeafNodeEntries),
{
    let buf_len = buf.len();
    let mut j: usize = 1;
    while j < count
        invariant
            1 <= j,
            addr + 8 + 8 * count <= buf@.len(),
            buf_len == buf@.len(),
            forall|jj: int| 0 < jj < j ==> #[trigger] key_step_ok(buf@, addr as int, jj),
        decreases count - j,
    {
        let prev = read_u32_le(buf, addr + 8 * j);
        let next = read_u32_le(buf, addr + 8 + 8 * j);
        if next < prev {
            assert(entry_key(buf@, addr as int, j as int) < entry_key(buf@, addr as int, j - 1));
            assert(!(forall|jj: int|
                0 < jj < count ==> #[trigger] key_step_ok(buf@, addr as int, jj))) by {
                assert(!key_step_ok(buf@, addr as int, j as int));
            }
            return Err(ArchivedBTreeMapError::UnsortedLeafNodeEntries);
        }
        j = j + 1;
    }
    Ok(())
}

/// Checks that the forward pointer of `leaf` leads to `next`, a leaf whose first key
/// is not below the last key of `leaf`.
fn check_leaf_link(buf: &[u8], ctx: &ArchiveValidator, leaf: NodeRef, next: NodeRef) -> (r: Result<
    (),
    ArchivedBTreeMapError,
>)
    requires
        ctx.wf(),
        ctx.buf_len() == buf@.len(),
        node_ok(buf@, leaf),
        node_ok(buf@, next),
        !leaf.is_inner,
    ensures
        r is Ok <==> {
            &&& !next.is_inner
            &&& link_target(buf@, leaf.addr as int) == next.addr
            &&& entry_key(buf@, leaf.addr as int, leaf.count - 1) <= entry_key(buf@, next.addr as int, 0)
        },
        r matches Err(e) ==> (e is ContextError || e is InnerNodeInLeafLevel || e is UnlinkedLeafNode
            || e is UnsortedLeafNode) && node_error_cause(buf@, e),
        link_outcome(buf@, leaf, next) matches Some(e) ==> r == Err::<(), ArchivedBTreeMapError>(e),
        link_outcome(buf@, leaf, next) is None ==> r is Ok,
{
    let _n = buf.len();
    let forward = RelPtr::read(buf, leaf.addr + 4);
    let next_ptr = match ctx.check_rel_ptr(&forward, HEADER_SIZE, NODE_ALIGN) {
        Ok(p) => p,
        Err(e) => {
            return Err(ArchivedBTreeMapError::ContextError(e));
        },
    };
    if next.is_inner {
        return Err(ArchivedBTreeMapError::InnerNodeInLeafLevel);
    }
    if next_ptr != next.addr {
        return Err(ArchivedBTreeMapError::UnlinkedLeafNode);
    }
    let first = read_u32_le(buf, next.addr + 8);
    let last = read_u32_le(buf, leaf.addr + 8 * leaf.count);
    if first < last {
        return Err(ArchivedBTreeMapError::UnsortedLeafNode);
    }
    Ok(())
}

/// Checks that the forward pointer of the last leaf is null.
fn check_last_leaf(buf: &[u8], leaf: NodeRef) -> (r: Result<(), ArchivedBTreeMapError>)
    requires
        node_ok(buf@, leaf),
    ensures
        r is Ok <==> i32_le(buf@, leaf.addr + 4) == 0,
        r is Err ==> r == Err::<(), ArchivedBTreeMapError>(
            ArchivedBTreeMapError::LastLeafForwardPointerNotNull,
        ),
{
    let _n = buf.len();
    let forward = RelPtr::read(buf, leaf.addr + 4);
    if !forward.is_null() {
        Err(ArchivedBTreeMapError::LastLeafForwardPointerNotNull)
    } else {
        Ok(())
    }
}

/// The nodes `ns[head..]` form a leaf level but for the order inside each leaf: leaves
/// at one depth, each linked to the next in key order, the last with a null forward
/// pointer.
pub open spec fn leaf_level_frame(b: Seq<u8>, ns: Seq<NodeRef>, head: int) -> bool {
    &&& forall|k: int| head <= k < ns.len() ==> !(#[trigger] ns[k]).is_inner
    &&& forall|k: int| head <= k < ns.len() ==> (#[trigger] ns[k]).depth == ns[head].depth
    &&& forall|k: int|
        head <= k < ns.len() - 1 ==> #[trigger] link_target(b, ns[k].addr as int) == ns[k
            + 1].addr && entry_key(b, ns[k].addr as int, ns[k].count - 1) <= entry_key(
            b,
            ns[k + 1].addr as int,
            0,
        )
    &&& i32_le(b, ns[ns.len() - 1].addr + 4) == 0
}

/// The first rule that the forward link from `leaf` to `next` breaks, if any: the
/// pointer must resolve, lead to `next`, a leaf, whose first key is not below the last
/// key of `leaf`.
pub open spec fn link_outcome(b: Seq<u8>, leaf: NodeRef, next: NodeRef) -> Option<ArchivedBTreeMapError> {
    match check_ptr_spec(b.len() as int, leaf.addr + 4, i32_le(b, leaf.addr + 4), 8, 4) {
        Err(c) => Some(ArchivedBTreeMapError::ContextError(c)),
        Ok(_) => if next.is_inner {
            Some(ArchivedBTreeMapError::InnerNodeInLeafLevel)
        } else if link_target(b, leaf.addr as int) != next.addr {
            Some(ArchivedBTreeMapError::UnlinkedLeafNode)
        } else if entry_key(b, next.addr as int, 0) < entry_key(b, leaf.addr as int, leaf.count - 1) {
            Some(ArchivedBTreeMapError::UnsortedLeafNode)
        } else {
            None
        },
    }
}

/// The first rule that leaf-level node `ns[i]` breaks, if any: it must be a leaf at depth
/// `expected`, in key order, and linked to `ns[i + 1]` or, when last, with a null forward
/// pointer.
pub open spec fn leaf_step_outcome(b: Seq<u8>, ns: Seq<NodeRef>, expected: int, i: int) -> Option<
    ArchivedBTreeMapError,
> {
    let n = ns[i];
    if n.is_inner {
        Some(ArchivedBTreeMapError::InnerNodeInLeafLevel)
    } else if n.depth != expected {
        Some(
            ArchivedBTreeMapError::InvalidLeafNodeDepth {
                expected: expected as usize,
                actual: n.depth,
            },
        )
    } else if !(forall|j: int| 0 < j < n.count ==> #[trigger] key_step_ok(b, n.addr as int, j)) {
        Some(ArchivedBTreeMapError::UnsortedLeafNodeEntries)
    } else if i < ns.len() - 1 {
        link_outcome(b, n, ns[i + 1])
    } else if i32_le(b, n.addr + 4) != 0 {
        Some(ArchivedBTreeMapError::LastLeafForwardPointerNotNull)
    } else {
        None
    }
}

/// The first rule that the leaf level `ns[head..]` breaks from `ns[i]` on, in order, if any.
pub open spec fn leaf_outcome(b: Seq<u8>, ns: Seq<NodeRef>, head: int, i: int) -> Option<
    ArchivedBTreeMapError,
>
    decreases ns.len() - i,
{
    if i >= ns.len() || i < 0 {
        None
    } else {
        match leaf_step_outcome(b, ns, ns[head].depth as int, i) {
            Some(e) => Some(e),
            None => leaf_outcome(b, ns, head, i + 1),
        }
    }
}

/// A leaf level with sorted leaves breaks no rule.
proof fn lemma_leaf_outcome_none(b: Seq<u8>, ns: Seq<NodeRef>, head: int, i: int)
    requires
        0 <= head <= i <= ns.len(),
        head < ns.len(),
        forall|k: int| 0 <= k < ns.len() ==> node_ok(b, #[trigger] ns[k]),
        leaf_level_frame(b, ns, head),
        leaves_sorted(b, ns, head),
    ensures
        leaf_outcome(b, ns, head, i) is None,
    decreases ns.len() - i,
{
    if i < ns.len() {
        lemma_leaf_outcome_none(b, ns, head, i + 1);
        assert(!ns[i].is_inner);
        assert(ns[i].depth == ns[head].depth);
        assert forall|j: int| 0 < j < ns[i].count implies #[trigger] key_step_ok(b, ns[i].addr as int, j) by {}
        if i < ns.len() - 1 {
            assert(link_target(b, ns[i].addr as int) == ns[i + 1].addr);
            assert(node_ok(b, ns[i + 1]));
            assert(!ns[i + 1].is_inner);
        }
    }
}

/// Checks the leaf level node `nodes[i]`: a leaf at `expected_depth`, in key order,
/// linked to `nodes[i + 1]` in key order or, when last, with a null forward pointer.
fn check_leaf(
    buf: &[u8],
    ctx: &ArchiveValidator,
    nodes: &Vec<NodeRef>,
    i: usize,
    expected_depth: usize,
) -> (r: Result<(), ArchivedBTreeMapError>)
    requires
        ctx.wf(),
        ctx.buf_len() == buf@.len(),
        i < nodes@.len(),
        forall|k: int| 0 <= k < nodes@.len() ==> node_ok(buf@, #[trigger] nodes@[k]),
    ensures
        r is Ok ==> {
            let ns = nodes@;
            &&& !ns[i as int].is_inner
            &&& ns[i as int].depth == expected_depth
            &&& forall|j: int|
                0 < j < ns[i as int].count ==> #[trigger] key_step_ok(
                    buf@,
                    ns[i as int].addr as int,
                    j,
                )
            &&& i < ns.len() - 1 ==> link_target(buf@, ns[i as int].addr as int) == ns[i + 1].addr
                && entry_key(buf@, ns[i as int].addr as int, ns[i as int].count - 1) <= entry_key(
                buf@,
                ns[i + 1].addr as int,
                0,
            )
            &&& i == ns.len() - 1 ==> i32_le(buf@, ns[i as int].addr + 4) == 0
        },
        r matches Err(ArchivedBTreeMapError::InvalidLeafNodeDepth { expected, actual }) ==> expected
            != actual,
        r matches Err(e) ==> node_error_cause(buf@, e),
        ({
            let ns = nodes@;
            let n = ns[i as int];
            &&& !n.is_inner
            &&& n.depth == expected_depth
            &&& i < ns.len() - 1 ==> !ns[i + 1].is_inner && link_target(buf@, n.addr as int)
                == ns[i + 1].addr && entry_key(buf@, n.addr as int, n.count - 1) <= entry_key(
                buf@,
                ns[i + 1].addr as int,
                0,
            )
            &&& i == ns.len() - 1 ==> i32_le(buf@, n.addr + 4) == 0
        }) ==> (r is Ok <==> forall|j: int|
            0 < j < nodes@[i as int].count ==> #[trigger] key_step_ok(
                buf@,
                nodes@[i as int].addr as int,
                j,
            )) && (r is Err ==> r == Err::<(), ArchivedBTreeMapError>(
            ArchivedBTreeMapError::UnsortedLeafNodeEntries,
        )),
        leaf_step_outcome(buf@, nodes@, expected_depth as int, i as int) matches Some(e) ==> r
            == Err::<(), ArchivedBTreeMapError>(e),
        leaf_step_outcome(buf@, nodes@, expected_depth as int, i as int) is None ==> r is Ok,
{
    let node = nodes[i];
    if node.is_inner {
        return Err(ArchivedBTreeMapError::InnerNodeInLeafLevel);
    }
    if node.depth != expected_depth {
        return Err(ArchivedBTreeMapError::InvalidLeafNodeDepth {
            expected: expected_depth,
            actual: node.depth,
        });
    }
    assert(node_ok(buf@, nodes@[i as int]));
    check_leaf_order(buf, node.addr, node.count)?;
    if i < nodes.len() - 1 {
        assert(node_ok(buf@, nodes@[i + 1 as int]));
        check_leaf_link(buf, ctx, node, nodes[i + 1])?;
    } else {
        check_last_leaf(buf, node)?;
    }
    Ok(())
}

/// Checks the leaf level `nodes[head..]` of a walk: only leaves, all at one depth,
/// each in key order, linked one to the next in key order, the last one with a null
/// forward pointer. Returns how many entries they hold.
#[verifier::spinoff_prover]
#[verifier::rlimit(100)]
fn check_leaf_level(buf: &[u8], ctx: &ArchiveValidator, nodes: &Vec<NodeRef>, head: usize) -> (r: Result<
    usize,
    ArchivedBTreeMapError,
>)
    requires
        ctx.wf(),
        ctx.buf_len() == buf@.len(),
        head < nodes@.len(),
        forall|k: int| 0 <= k < nodes@.len() ==> node_ok(buf@, #[trigger] nodes@[k]),
        sizes(nodes@, nodes@.len() as int) <= buf@.len(),
    ensures
        r matches Ok(c) ==> {
            let ns = nodes@;
            &&& c == entry_counts(ns, head as int, ns.len() as int)
            &&& forall|k: int| head <= k < ns.len() ==> !(#[trigger] ns[k]).is_inner
            &&& forall|k: int| head <= k < ns.len() ==> (#[trigger] ns[k]).depth == ns[head as int].depth
            &&& forall|k: int, j: int|
                head <= k < ns.len() && 0 < j < ns[k].count ==> #[trigger] key_step_ok(
                    buf@,
                    ns[k].addr as int,
                    j,
                )
            &&& forall|k: int|
                head <= k < ns.len() - 1 ==> #[trigger] link_target(buf@, ns[k].addr as int) == ns[k
                    + 1].addr && entry_key(buf@, ns[k].addr as int, ns[k].count - 1) <= entry_key(
                    buf@,
                    ns[k + 1].addr as int,
                    0,
                )
            &&& i32_le(buf@, ns[ns.len() - 1].addr + 4) == 0
        },
        r matches Err(ArchivedBTreeMapError::InvalidLeafNodeDepth { expected, actual }) ==> expected
            != actual,
        r matches Err(e) ==> node_error_cause(buf@, e),
        leaf_outcome(buf@, nodes@, head as int, head as int) matches Some(e) ==> r == Err::<
            usize,
            ArchivedBTreeMapError,
        >(e),
        leaf_outcome(buf@, nodes@, head as int, head as int) is None ==> r is Ok,
{
    let buf_len = buf.len();
    let n = nodes.len();
    let expected_depth = nodes[head].depth;
    let mut entry_count: usize = 0;
    let mut i: usize = head;
    while i < n
        invariant
            buf_len == buf@.len(),
            n == nodes@.len(),
            head < n,
            head <= i <= n,
            expected_depth == nodes@[head as int].depth,
            ctx.wf(),
            ctx.buf_len() == buf@.len(),
            forall|k: int| 0 <= k < nodes@.len() ==> node_ok(buf@, #[trigger] nodes@[k]),
            sizes(nodes@, n as int) <= buf@.len(),
            entry_count == entry_counts(nodes@, head as int, i as int),
            forall|k: int| head <= k < i ==> !(#[trigger] nodes@[k]).is_inner,
            forall|k: int| head <= k < i ==> (#[trigger] nodes@[k]).depth == expected_depth,
            forall|k: int, j: int|
                head <= k < i && 0 < j < nodes@[k].count ==> #[trigger] key_step_ok(
                    buf@,
                    nodes@[k].addr as int,
                    j,
                ),
            forall|k: int|
                head <= k < i && k < n - 1 ==> #[trigger] link_target(buf@, nodes@[k].addr as int)
                    == nodes@[k + 1].addr && entry_key(buf@, nodes@[k].addr as int, nodes@[k].count - 1)
                    <= entry_key(buf@, nodes@[k + 1].addr as int, 0),
            i == n ==> i32_le(buf@, nodes@[n - 1].addr + 4) == 0,
            leaf_outcome(buf@, nodes@, head as int, head as int) == leaf_outcome(
                buf@,
                nodes@,
                head as int,
                i as int,
            ),
        decreases n - i,
    {
        let node = nodes[i];
        check_leaf(buf, ctx, nodes, i, expected_depth)?;
        assert(leaf_outcome(buf@, nodes@, head as int, i as int) == leaf_outcome(
            buf@,
            nodes@,
            head as int,
            i + 1,
        ));
        proof {
            let ns = nodes@;
            assert forall|k: int|
                head <= k < i + 1 && k < n - 1 implies #[trigger] link_target(buf@, ns[k].addr as int)
                == ns[k + 1].addr && entry_key(buf@, ns[k].addr as int, ns[k].count - 1) <= entry_key(
                buf@,
                ns[k + 1].addr as int,
                0,
            ) by {
                if k < i {
                    assert(link_target(buf@, ns[k].addr as int) == ns[k + 1].addr);
                }
            }
            assert forall|k: int, j: int|
                head <= k < i + 1 && 0 < j < ns[k].count implies #[trigger] key_step_ok(
                buf@,
                ns[k].addr as int,
                j,
            ) by {}
        }
        proof {
            lemma_counts_bound(nodes@, head as int, i + 1);
            lemma_sizes_bounds(nodes@, i + 1, n as int);
        }
        entry_count = entry_count + node.count;
        i = i + 1;
    }
    proof {
        if n == 1 {
            assert(entry_counts(nodes@, 0, 0) == 0);
            assert(entry_counts(nodes@, 0, 1) == nodes@[0].count);
        }
    }
    Ok(entry_count)
}

/// `ns` is the shape of a map tree at `map_addr` (`layout_shape`) whose nodes all lie in
/// `[lo, hi)` and on no byte of `owned`.
pub open spec fn tree_shape(
    b: Seq<u8>,
    map_addr: int,
    ns: Seq<NodeRef>,
    first_leaf: int,
    lo: int,
    hi: int,
    owned: Set<int>,
) -> bool {
    &&& tree_frame(b, map_addr, ns, first_leaf, lo, hi, owned)
    &&& leaves_sorted(b, ns, first_leaf)
}

/// `tree_shape` but for the order of keys inside each leaf.
pub open spec fn tree_frame(
    b: Seq<u8>,
    map_addr: int,
    ns: Seq<NodeRef>,
    first_leaf: int,
    lo: int,
    hi: int,
    owned: Set<int>,
) -> bool {
    &&& layout_frame(b, map_addr, ns, first_leaf)
    &&& forall|k: int|
        0 <= k < ns.len() ==> lo <= (#[trigger] ns[k]).addr && ns[k].addr + node_size(
            ns[k].count as int,
        ) <= hi
    &&& forall|k: int, x: int|
        0 <= k < ns.len() && #[trigger] span(ns[k].addr as int, node_size(ns[k].count as int)).contains(
            x,
        ) ==> !owned.contains(x)
}

/// The map at `map_addr` is a well-formed tree in `[lo, hi)`, clear of `owned`, whose
/// header counts its entries.
pub open spec fn well_formed_tree(b: Seq<u8>, map_addr: int, lo: int, hi: int, owned: Set<int>) -> bool {
    exists|ns: Seq<NodeRef>, first_leaf: int|
        #[trigger] tree_shape(b, map_addr, ns, first_leaf, lo, hi, owned) && u32_le(b, map_addr)
            == entry_counts(ns, first_leaf, ns.len() as int)
}

/// What the walk needs of the nodes `ns` of a tree at `map_addr`: the root first, each
/// well-formed and apart from the others, the inner nodes `ns[0..first_leaf]` each with
/// its children listed in breadth-first order, a leaf at `first_leaf`, nothing else
/// listed, all in `[lo, hi)` and on no byte of `owned`.
pub open spec fn tree_walk(
    b: Seq<u8>,
    map_addr: int,
    ns: Seq<NodeRef>,
    first_leaf: int,
    lo: int,
    hi: int,
    owned: Set<int>,
) -> bool {
    &&& 1 <= ns.len()
    &&& 0 <= first_leaf < ns.len()
    &&& ns[0].addr == pointee(b, map_addr + 4)
    &&& ns[0].depth == 0
    &&& forall|k: int| 0 <= k < ns.len() ==> node_ok(b, #[trigger] ns[k])
    &&& forall|k: int, l: int| 0 <= k < l < ns.len() ==> apart(#[trigger] ns[k], #[trigger] ns[l])
    &&& forall|k: int| 0 <= k < first_leaf ==> (#[trigger] ns[k]).is_inner
    &&& !ns[first_leaf].is_inner
    &&& forall|k: int| 0 <= k < first_leaf ==> #[trigger] links_ok(b, ns, k)
    &&& ns.len() == child_start(ns, first_leaf)
    &&& forall|k: int|
        0 <= k < ns.len() ==> lo <= (#[trigger] ns[k]).addr && ns[k].addr + node_size(
            ns[k].count as int,
        ) <= hi
    &&& forall|k: int, x: int|
        0 <= k < ns.len() && #[trigger] span(ns[k].addr as int, node_size(ns[k].count as int)).contains(
            x,
        ) ==> !owned.contains(x)
}

/// Some tree at `map_addr` that the walk can list.
pub open spec fn has_tree_walk(b: Seq<u8>, map_addr: int, lo: int, hi: int, owned: Set<int>) -> bool {
    exists|ns: Seq<NodeRef>, first_leaf: int| #[trigger] tree_walk(b, map_addr, ns, first_leaf, lo, hi, owned)
}

/// The tree of `has_tree_walk`, as `(nodes, first_leaf)`: a well-formed tree if there is one.
pub open spec fn the_tree_walk(b: Seq<u8>, map_addr: int, lo: int, hi: int, owned: Set<int>) -> (
    Seq<NodeRef>,
    int,
) {
    if well_formed_tree(b, map_addr, lo, hi, owned) {
        choose|ns: Seq<NodeRef>, first_leaf: int|
            #[trigger] tree_shape(b, map_addr, ns, first_leaf, lo, hi, owned) && u32_le(b, map_addr)
                == entry_counts(ns, first_leaf, ns.len() as int)
    } else {
        choose|ns: Seq<NodeRef>, first_leaf: int|
            #[trigger] tree_walk(b, map_addr, ns, first_leaf, lo, hi, owned)
    }
}

/// While the walk has listed the first `nodes.len()` nodes of the tree `w`, the next
/// node of `w` can be claimed and passes its checks.
proof fn lemma_next_node(
    b: Seq<u8>,
    map_addr: int,
    w: Seq<NodeRef>,
    fl: int,
    lo: int,
    hi: int,
    owned0: Set<int>,
    owned: Set<int>,
    nodes: Seq<NodeRef>,
)
    requires
        tree_walk(b, map_addr, w, fl, lo, hi, owned0),
        walk_ok(b, nodes, owned0, owned, lo, hi),
        nodes.len() < w.len(),
        forall|i: int| 0 <= i < nodes.len() ==> nodes[i] == w[i],
    ensures
        ({
            let t = w[nodes.len() as int].addr as int;
            forall|c: ContextError| !claim_refused(b, lo, hi, owned, t, c)
        }),
        forall|m: NodeRef|
            node_ok(b, m) && m.addr == w[nodes.len() as int].addr && m.depth == w[nodes.len() as int].depth
                ==> m == w[nodes.len() as int],
        node_ok(b, w[nodes.len() as int]),
{
    let n = nodes.len() as int;
    let wn = w[n];
    let t = wn.addr as int;
    let size = node_size(wn.count as int);
    assert(node_ok(b, wn));
    assert forall|x: int| span(t, size).contains(x) implies !owned.contains(x) by {
        assert(span(wn.addr as int, node_size(wn.count as int)).contains(x));
        if owned.contains(x) && !owned0.contains(x) {
            let k = choose|k: int|
                0 <= k < nodes.len() && #[trigger] span(
                    nodes[k].addr as int,
                    node_size(nodes[k].count as int),
                ).contains(x);
            assert(nodes[k] == w[k]);
            assert(apart(w[k], w[n]));
        }
    }
}

/// Walks the nodes of the map whose header lies at `map_addr` breadth-first, claiming
/// and checking each, until the first leaf in the queue. Returns the nodes reached and
/// the index of that leaf.
#[verifier::spinoff_prover]
#[verifier::rlimit(100)]
fn walk_tree(buf: &[u8], ctx: &mut ArchiveValidator, map_addr: usize) -> (r: Result<
    (Vec<NodeRef>, usize),
    ArchivedBTreeMapError,
>)
    requires
        old(ctx).wf(),
        old(ctx).buf_len() == buf@.len(),
        map_addr + 8 <= buf@.len(),
    ensures
        final(ctx).wf(),
        final(ctx).buf_len() == old(ctx).buf_len(),
        final(ctx).lo() == old(ctx).lo(),
        final(ctx).hi() == old(ctx).hi(),
        final(ctx).depth() == old(ctx).depth(),
        final(ctx).shared() == old(ctx).shared(),
        old(ctx).owned().subset_of(final(ctx).owned()),
        r matches Err(e) ==> node_error_cause(buf@, e) && !(e is LengthMismatch),
        r matches Ok((ns, head)) ==> {
            &&& head < ns@.len()
            &&& ns@[0].addr == pointee(buf@, map_addr + 4)
            &&& ns@[0].depth == 0
            &&& forall|k: int| 0 <= k < head ==> (#[trigger] ns@[k]).is_inner
            &&& !ns@[head as int].is_inner
            &&& walk_ok(buf@, ns@, old(ctx).owned(), final(ctx).owned(), old(ctx).lo(), old(ctx).hi())
            &&& ns@.len() == child_start(ns@, head as int)
            &&& forall|k: int| 0 <= k < head ==> #[trigger] links_ok(buf@, ns@, k)
        },
        ({
            let (w, fl) = the_tree_walk(
                buf@,
                map_addr as int,
                old(ctx).lo(),
                old(ctx).hi(),
                old(ctx).owned(),
            );
            has_tree_walk(buf@, map_addr as int, old(ctx).lo(), old(ctx).hi(), old(ctx).owned())
                ==> (r matches Ok((ns, head)) && ns@ == w && head == fl)
        }),
{
    let buf_len = buf.len();
    let ghost owned0 = ctx.owned();
    let ghost lo0 = ctx.lo();
    let ghost hi0 = ctx.hi();
    let ghost shaped = has_tree_walk(buf@, map_addr as int, lo0, hi0, owned0);
    let ghost (w, fl) = the_tree_walk(buf@, map_addr as int, lo0, hi0, owned0);
    let mut nodes: Vec<NodeRef> = Vec::new();
    proof {
        ctx.lemma_owned_bounded();
        assert(owned0.subset_of(ctx.owned()));
        if shaped {
            assert(tree_walk(buf@, map_addr as int, w, fl, lo0, hi0, owned0)) by {
                if well_formed_tree(buf@, map_addr as int, lo0, hi0, owned0) {
                    assert(!w[fl].is_inner);
                }
            }
            lemma_next_node(buf@, map_addr as int, w, fl, lo0, hi0, owned0, ctx.owned(), nodes@);
        }
    }
    push_child(buf, ctx, &mut nodes, Ghost(owned0), map_addr + 4, 0)?;
    let mut head: usize = 0;
    while head < nodes.len() && nodes[head].is_inner
        invariant
            ctx.wf(),
            ctx.buf_len() == buf@.len(),
            old(ctx).buf_len() == buf@.len(),
            buf_len == buf@.len(),
            map_addr + 8 <= buf@.len(),
            ctx.lo() == old(ctx).lo(),
            ctx.hi() == old(ctx).hi(),
            ctx.depth() == old(ctx).depth(),
            ctx.shared() == old(ctx).shared(),
            owned0 == old(ctx).owned(),
            lo0 == old(ctx).lo(),
            hi0 == old(ctx).hi(),
            shaped == has_tree_walk(buf@, map_addr as int, lo0, hi0, owned0),
            (w, fl) == the_tree_walk(buf@, map_addr as int, lo0, hi0, owned0),
            shaped ==> tree_walk(buf@, map_addr as int, w, fl, lo0, hi0, owned0),
            shaped ==> nodes@.len() <= w.len() && forall|i: int|
                0 <= i < nodes@.len() ==> nodes@[i] == w[i],
            1 <= nodes@.len(),
            nodes@[0].addr == pointee(buf@, map_addr + 4),
            nodes@[0].depth == 0,
            forall|k: int| 0 <= k < head ==> (#[trigger] nodes@[k]).is_inner,
            walk_ok(buf@, nodes@, owned0, ctx.owned(), ctx.lo(), ctx.hi()),
            head < nodes@.len(),
            shaped ==> head <= fl,
            !nodes@[0].is_inner ==> head == 0 && nodes@.len() == 1,
            nodes@.len() == child_start(nodes@, head as int),
            forall|k: int| 0 <= k < head ==> #[trigger] links_ok(buf@, nodes@, k),
        decreases buf@.len() - nodes@.len(),
    {
        let cur = nodes[head];
        head = head + 1;
        let ghost n_start = nodes@.len();
        let ghost before = nodes@;
        proof {
            if shaped {
                assert(cur == w[head - 1]);
                assert(head - 1 < fl) by {
                    if head - 1 >= fl {
                        assert(!w[head - 1].is_inner);
                    }
                }
                assert(links_ok(buf@, w, head - 1));
                lemma_child_start_prefix(nodes@, w, head - 1);
                lemma_next_node(buf@, map_addr as int, w, fl, lo0, hi0, owned0, ctx.owned(), nodes@);
            }
        }
        push_child(buf, ctx, &mut nodes, Ghost(owned0), cur.addr + 4, cur.depth + 1)?;
        proof {
            lemma_links_push(buf@, before, nodes@.last(), head - 1);
            lemma_child_start_prefix(before, nodes@, head - 1);
            lemma_child_start_prefix(before, nodes@, head as int);
        }
        let mut j: usize = 0;
        while j < cur.count
            invariant
                ctx.wf(),
                ctx.buf_len() == buf@.len(),
                old(ctx).buf_len() == buf@.len(),
                buf_len == buf@.len(),
                map_addr + 8 <= buf@.len(),
                ctx.lo() == old(ctx).lo(),
                ctx.hi() == old(ctx).hi(),
                ctx.depth() == old(ctx).depth(),
                ctx.shared() == old(ctx).shared(),
                owned0 == old(ctx).owned(),
                lo0 == old(ctx).lo(),
                hi0 == old(ctx).hi(),
                shaped == has_tree_walk(buf@, map_addr as int, lo0, hi0, owned0),
                (w, fl) == the_tree_walk(buf@, map_addr as int, lo0, hi0, owned0),
                shaped ==> tree_walk(buf@, map_addr as int, w, fl, lo0, hi0, owned0),
                shaped ==> nodes@.len() <= w.len() && forall|i: int|
                    0 <= i < nodes@.len() ==> nodes@[i] == w[i],
                1 <= nodes@.len(),
                nodes@[0].addr == pointee(buf@, map_addr + 4),
                nodes@[0].depth == 0,
                forall|k: int| 0 <= k < head ==> (#[trigger] nodes@[k]).is_inner,
                walk_ok(buf@, nodes@, owned0, ctx.owned(), ctx.lo(), ctx.hi()),
                0 < head < nodes@.len(),
                shaped ==> head <= fl,
                shaped ==> child_start(w, head - 1) == child_start(nodes@, head - 1),
                shaped ==> links_ok(buf@, w, head - 1),
                cur == nodes@[head - 1],
                nodes@[0].is_inner,
                nodes@.len() > n_start,
                j <= cur.count,
                nodes@.len() == child_start(nodes@, head - 1) + 1 + j,
                child_start(nodes@, head as int) == child_start(nodes@, head - 1) + cur.count + 1,
                forall|k: int| 0 <= k < head - 1 ==> #[trigger] links_ok(buf@, nodes@, k),
                nodes@[child_start(nodes@, head - 1)].addr == link_target(buf@, cur.addr as int),
                nodes@[child_start(nodes@, head - 1)].depth == cur.depth + 1,
                forall|jj: int| 0 <= jj < j ==> #[trigger] child_ok(buf@, nodes@, head - 1, jj),
            decreases cur.count - j,
        {
            let base = cur.addr + 12 + 8 * j;
            let ghost before = nodes@;
            proof {
                if shaped {
                    assert(child_ok(buf@, w, head - 1, j as int));
                    lemma_next_node(buf@, map_addr as int, w, fl, lo0, hi0, owned0, ctx.owned(), nodes@);
                }
            }
            let child = push_child(buf, ctx, &mut nodes, Ghost(owned0), base, cur.depth + 1)?;
            proof {
                lemma_links_push(buf@, before, child, head - 1);
                lemma_child_links_push(buf@, before, child, head - 1, j as int);
                lemma_child_start_grows(before, head - 1);
                lemma_child_start_prefix(before, nodes@, head as int);
                assert(nodes@[child_start(nodes@, head - 1)] == before[child_start(before, head - 1)]);
            }
            let child_key = read_u32_le(buf, child.addr + 8);
            let key = read_u32_le(buf, cur.addr + 8 + 8 * j);
            if child_key != key {
                assert(node_ok(buf@, nodes@[head - 1]));
                assert(entry_key(buf@, cur.addr as int, j as int) != entry_key(
                    buf@,
                    child_target(buf@, cur.addr as int, j as int),
                    0,
                ));
                return Err(ArchivedBTreeMapError::MismatchedInnerChildKey);
            }
            proof {
                assert(child_ok(buf@, nodes@, head - 1, j as int));
            }
            j = j + 1;
        }
        proof {
            assert(links_ok(buf@, nodes@, head - 1));
        }
    }
    proof {
        ctx.lemma_owned_bounded();
        if shaped {
            assert(head == fl) by {
                if head < fl {
                    assert(w[head as int].is_inner);
                }
            }
            lemma_child_start_prefix(nodes@, w, head as int);
            assert(nodes@ =~= w);
        }
    }
    Ok((nodes, head))
}

/// Checks the archived B-tree map whose header lies at `map_addr`: walks its nodes
/// breadth-first, claiming each, then checks the leaf level and the entry count.
#[verifier::spinoff_prover]
#[verifier::rlimit(100)]
pub fn check_btree_map(buf: &[u8], ctx: &mut ArchiveValidator, map_addr: usize) -> (r: Result<
    BTreeMapLayout,
    ArchivedBTreeMapError,
>)
    requires
        old(ctx).wf(),
        old(ctx).buf_len() == buf@.len(),
        map_addr + 8 <= buf@.len(),
    ensures
        final(ctx).wf(),
        final(ctx).buf_len() == old(ctx).buf_len(),
        final(ctx).lo() == old(ctx).lo(),
        final(ctx).hi() == old(ctx).hi(),
        final(ctx).depth() == old(ctx).depth(),
        final(ctx).shared() == old(ctx).shared(),
        old(ctx).owned().subset_of(final(ctx).owned()),
        r matches Ok(l) ==> {
            &&& valid_layout(buf@, map_addr as int, l.nodes@, l.first_leaf as int)
            &&& walk_ok(buf@, l.nodes@, old(ctx).owned(), final(ctx).owned(), old(ctx).lo(), old(ctx).hi())
            &&& 8 * l.nodes@.len() <= buf@.len()
            &&& tree_shape(
                buf@,
                map_addr as int,
                l.nodes@,
                l.first_leaf as int,
                old(ctx).lo(),
                old(ctx).hi(),
                old(ctx).owned(),
            )
        },
        r matches Err(e) ==> error_cause(buf@, map_addr as int, e),
        r is Ok <==> well_formed_tree(
            buf@,
            map_addr as int,
            old(ctx).lo(),
            old(ctx).hi(),
            old(ctx).owned(),
        ),
        ({
            let (w, fl) = the_tree_walk(
                buf@,
                map_addr as int,
                old(ctx).lo(),
                old(ctx).hi(),
                old(ctx).owned(),
            );
            has_tree_walk(buf@, map_addr as int, old(ctx).lo(), old(ctx).hi(), old(ctx).owned()) ==> {
                &&& leaf_outcome(buf@, w, fl, fl) matches Some(e) ==> r == Err::<
                    BTreeMapLayout,
                    ArchivedBTreeMapError,
                >(e)
                &&& leaf_outcome(buf@, w, fl, fl) is None && u32_le(buf@, map_addr as int)
                    != entry_counts(w, fl, w.len() as int) ==> r == Err::<
                    BTreeMapLayout,
                    ArchivedBTreeMapError,
                >(
                    ArchivedBTreeMapError::LengthMismatch {
                        expected: u32_le(buf@, map_addr as int) as usize,
                        actual: entry_counts(w, fl, w.len() as int) as usize,
                    },
                )
            }
        }),
{
    let len = read_u32_le(buf, map_addr) as usize;
    let ghost owned0 = ctx.owned();
    let ghost lo0 = ctx.lo();
    let ghost hi0 = ctx.hi();
    let ghost (w, fl) = the_tree_walk(buf@, map_addr as int, lo0, hi0, owned0);
    proof {
        if well_formed_tree(buf@, map_addr as int, lo0, hi0, owned0) {
            assert(tree_shape(buf@, map_addr as int, w, fl, lo0, hi0, owned0));
            assert(!w[fl].is_inner);
            assert(tree_walk(buf@, map_addr as int, w, fl, lo0, hi0, owned0));
        }
    }
    let (nodes, head) = walk_tree(buf, ctx, map_addr)?;
    proof {
        ctx.lemma_owned_bounded();
        if well_formed_tree(buf@, map_addr as int, lo0, hi0, owned0) {
            lemma_leaf_outcome_none(buf@, nodes@, head as int, head as int);
        }
    }
    let entry_count = check_leaf_level(buf, ctx, &nodes, head)?;
    if entry_count != len {
        return Err(ArchivedBTreeMapError::LengthMismatch { expected: len, actual: entry_count });
    }
    assert(valid_layout(buf@, map_addr as int, nodes@, head as int));
    proof {
        ctx.lemma_owned_bounded();
        lemma_sizes_bounds(nodes@, 0, nodes@.len() as int);
        assert(tree_shape(buf@, map_addr as int, nodes@, head as int, lo0, hi0, owned0));
    }
    Ok(BTreeMapLayout { nodes, first_leaf: head })
}

/// The `(key, value)` pairs of the node at `a` with `count` entries.
pub open spec fn node_entries(b: Seq<u8>, a: int, count: int) -> Seq<(int, int)> {
    Seq::new(count as nat, |j: int| (entry_key(b, a, j), entry_word(b, a, j)))
}

/// The `(key, value)` pairs of the nodes `ns[lo..hi]`, one node after the other.
pub open spec fn leaf_entries(b: Seq<u8>, ns: Seq<NodeRef>, lo: int, hi: int) -> Seq<(int, int)>
    decreases hi - lo,
{
    if hi <= lo {
        Seq::empty()
    } else {
        leaf_entries(b, ns, lo, hi - 1) + node_entries(b, ns[hi - 1].addr as int, ns[hi - 1].count as int)
    }
}

/// The `(key, value)` pairs of a validated map, in leaf order.
pub open spec fn map_entries(b: Seq<u8>, ns: Seq<NodeRef>, first_leaf: int) -> Seq<(int, int)> {
    leaf_entries(b, ns, first_leaf, ns.len() as int)
}

proof fn lemma_leaf_entries_len(b: Seq<u8>, ns: Seq<NodeRef>, lo: int, hi: int)
    ensures
        leaf_entries(b, ns, lo, hi).len() == entry_counts(ns, lo, hi),
    decreases hi - lo,
{
    if hi > lo {
        lemma_leaf_entries_len(b, ns, lo, hi - 1);
    }
}

proof fn lemma_leaf_entries_sorted(b: Seq<u8>, ns: Seq<NodeRef>, first_leaf: int, hi: int)
    requires
        0 <= first_leaf < hi <= ns.len(),
        forall|k: int| first_leaf <= k < ns.len() ==> (#[trigger] ns[k]).count >= 1,
        forall|k: int, j: int|
            first_leaf <= k < ns.len() && 0 < j < ns[k].count ==> #[trigger] key_step_ok(
                b,
                ns[k].addr as int,
                j,
            ),
        forall|k: int|
            first_leaf <= k < ns.len() - 1 ==> #[trigger] link_target(b, ns[k].addr as int) == ns[k
                + 1].addr && entry_key(b, ns[k].addr as int, ns[k].count - 1) <= entry_key(
                b,
                ns[k + 1].addr as int,
                0,
            ),
    ensures
        ({
            let s = leaf_entries(b, ns, first_leaf, hi);
            &&& s.len() >= 1
            &&& s.last().0 == entry_key(b, ns[hi - 1].addr as int, ns[hi - 1].count - 1)
            &&& forall|i: int| 0 < i < s.len() ==> s[i - 1].0 <= #[trigger] s[i].0
        }),
    decreases hi - first_leaf,
{
    let n = ns[hi - 1];
    let e = node_entries(b, n.addr as int, n.count as int);
    let s = leaf_entries(b, ns, first_leaf, hi);
    assert(leaf_entries(b, ns, first_leaf, hi - 1) + e == s);
    if hi - 1 > first_leaf {
        lemma_leaf_entries_sorted(b, ns, first_leaf, hi - 1);
        let p = leaf_entries(b, ns, first_leaf, hi - 1);
        let m = ns[hi - 2];
        assert(link_target(b, m.addr as int) == ns[hi - 1].addr);
        assert forall|i: int| 0 < i < s.len() implies s[i - 1].0 <= #[trigger] s[i].0 by {
            if i > p.len() {
                assert(key_step_ok(b, n.addr as int, i - p.len()));
            }
        }
    } else {
        assert(leaf_entries(b, ns, first_leaf, hi - 1) =~= Seq::<(int, int)>::empty());
        assert forall|i: int| 0 < i < s.len() implies s[i - 1].0 <= #[trigger] s[i].0 by {
            assert(key_step_ok(b, n.addr as int, i));
        }
    }
}

/// A validated map holds as many entries as its header says, and its entries, read
/// leaf after leaf, come in order of their keys.
pub proof fn lemma_validated_entries_in_order(b: Seq<u8>, map_addr: int, ns: Seq<NodeRef>, first_leaf: int)
    requires
        valid_layout(b, map_addr, ns, first_leaf),
    ensures
        map_entries(b, ns, first_leaf).len() == u32_le(b, map_addr),
        forall|i: int|
            0 < i < map_entries(b, ns, first_leaf).len() ==> map_entries(b, ns, first_leaf)[i - 1].0
                <= #[trigger] map_entries(b, ns, first_leaf)[i].0,
{
    lemma_leaf_entries_len(b, ns, first_leaf, ns.len() as int);
    assert forall|k: int| first_leaf <= k < ns.len() implies (#[trigger] ns[k]).count >= 1 by {
        assert(node_ok(b, ns[k]));
    }
    lemma_leaf_entries_sorted(b, ns, first_leaf, ns.len() as int);
}

/// No two nodes of a validated map share a byte.
pub proof fn lemma_validated_nodes_disjoint(b: Seq<u8>, map_addr: int, ns: Seq<NodeRef>, first_leaf: int)
    requires
        valid_layout(b, map_addr, ns, first_leaf),
    ensures
        forall|k: int, l: int, x: int|
            0 <= k < ns.len() && 0 <= l < ns.len() && k != l && #[trigger] span(
                ns[k].addr as int,
                node_size(ns[k].count as int),
            ).contains(x) ==> !#[trigger] span(ns[l].addr as int, node_size(ns[l].count as int)).contains(x),
{
    assert forall|k: int, l: int, x: int|
        0 <= k < ns.len() && 0 <= l < ns.len() && k != l && #[trigger] span(
            ns[k].addr as int,
            node_size(ns[k].count as int),
        ).contains(x) implies !#[trigger] span(
            ns[l].addr as int,
            node_size(ns[l].count as int),
        ).contains(x) by {
        if k < l {
            assert(apart(ns[k], ns[l]));
        } else {
            assert(apart(ns[l], ns[k]));
        }
    }
}

proof fn lemma_leaf_count(ns: Seq<NodeRef>, lo: int, hi: int)
    requires
        0 <= lo <= hi <= ns.len(),
        forall|k: int| lo <= k < hi ==> (#[trigger] ns[k]).count >= 1,
    ensures
        entry_counts(ns, lo, hi) >= hi - lo,
    decreases hi - lo,
{
    if hi > lo {
        lemma_leaf_count(ns, lo, hi - 1);
    }
}

/// A validated map has no more leaves than entries.
pub proof fn lemma_validated_leaves_bounded(b: Seq<u8>, map_addr: int, ns: Seq<NodeRef>, first_leaf: int)
    requires
        valid_layout(b, map_addr, ns, first_leaf),
    ensures
        ns.len() - first_leaf <= u32_le(b, map_addr),
{
    assert forall|k: int| first_leaf <= k < ns.len() implies (#[trigger] ns[k]).count >= 1 by {
        assert(node_ok(b, ns[k]));
    }
    lemma_leaf_count(ns, first_leaf, ns.len() as int);
}

/// Within every leaf of a validated map, keys do not decrease.
pub proof fn lemma_validated_leaves_sorted(b: Seq<u8>, map_addr: int, ns: Seq<NodeRef>, first_leaf: int)
    requires
        valid_layout(b, map_addr, ns, first_leaf),
    ensures
        forall|k: int, j: int|
            first_leaf <= k < ns.len() && 0 < j < ns[k].count ==> entry_key(b, ns[k].addr as int, j - 1)
                <= #[trigger] entry_key(b, ns[k].addr as int, j),
{
    assert forall|k: int, j: int|
        first_leaf <= k < ns.len() && 0 < j < ns[k].count implies entry_key(b, ns[k].addr as int, j - 1)
        <= #[trigger] entry_key(b, ns[k].addr as int, j) by {
        assert(key_step_ok(b, ns[k].addr as int, j));
    }
}

impl BTreeMapLayout {
    /// The `(key, value)` pairs of the map, leaf after leaf.
    pub fn entries(&self, buf: &[u8]) -> (r: Vec<(u32, u32)>)
        requires
            self.first_leaf <= self.nodes@.len(),
            forall|k: int| 0 <= k < self.nodes@.len() ==> node_ok(buf@, #[trigger] self.nodes@[k]),
        ensures
            r@.len() == map_entries(buf@, self.nodes@, self.first_leaf as int).len(),
            forall|i: int|
                0 <= i < r@.len() ==> ((#[trigger] r@[i]).0 as int, r@[i].1 as int) == map_entries(
                    buf@,
                    self.nodes@,
                    self.first_leaf as int,
                )[i],
    {
        let _n = buf.len();
        let mut out: Vec<(u32, u32)> = Vec::new();
        let mut k: usize = self.first_leaf;
        while k < self.nodes.len()
            invariant
                self.first_leaf <= k <= self.nodes@.len(),
                _n == buf@.len(),
                forall|m: int| 0 <= m < self.nodes@.len() ==> node_ok(buf@, #[trigger] self.nodes@[m]),
                out@.len() == leaf_entries(buf@, self.nodes@, self.first_leaf as int, k as int).len(),
                forall|i: int|
                    0 <= i < out@.len() ==> ((#[trigger] out@[i]).0 as int, out@[i].1 as int)
                        == leaf_entries(buf@, self.nodes@, self.first_leaf as int, k as int)[i],
            decreases self.nodes@.len() - k,
        {
            let node = self.nodes[k];
            assert(node_ok(buf@, self.nodes@[k as int]));
            let ghost before = out@;
            let ghost prev = leaf_entries(buf@, self.nodes@, self.first_leaf as int, k as int);
            let ghost e = node_entries(buf@, node.addr as int, node.count as int);
            let mut j: usize = 0;
            while j < node.count
                invariant
                    j <= node.count,
                    _n == buf@.len(),
                    node.addr + 8 + 8 * node.count <= buf@.len(),
                    e == node_entries(buf@, node.addr as int, node.count as int),
                    out@.len() == before.len() + j,
                    before.len() == prev.len(),
                    forall|i: int|
                        0 <= i < before.len() ==> ((#[trigger] out@[i]).0 as int, out@[i].1 as int)
                            == prev[i],
                    forall|i: int|
                        0 <= i < j ==> ((#[trigger] out@[before.len() + i]).0 as int, out@[before.len()
                            + i].1 as int) == e[i],
                decreases node.count - j,
            {
                let key = crate::bytes::read_u32_le(buf, node.addr + 8 + 8 * j);
                let value = crate::bytes::read_u32_le(buf, node.addr + 12 + 8 * j);
                out.push((key, value));
                j = j + 1;
            }
            proof {
                let next = leaf_entries(buf@, self.nodes@, self.first_leaf as int, k + 1);
                assert(next == prev + e);
                assert forall|i: int| 0 <= i < out@.len() implies ((#[trigger] out@[i]).0 as int, out@[
                    i
                ].1 as int) == next[i] by {
                    if i >= before.len() {
                        let t = i - before.len();
                        assert(out@[before.len() + t] == out@[i]);
                    }
                }
            }
            k = k + 1;
        }
        out
    }
}

} // verus!
