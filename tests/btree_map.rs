use rkyv::layout::{Layout, LayoutRaw, Node};
use rkyv::btree::{split_meta, ArchivedBTreeMapError, MIN_ENTRIES_PER_LEAF_NODE};
use rkyv::context::ContextError;
use rkyv::validation::{check_archived_root, check_archived_value, CheckArchiveError};

/// A node of a hand-built archive. Children and forward links name other nodes by index.
enum TNode {
    Leaf(Vec<(u32, u32)>, Option<usize>),
    Inner(usize, Vec<(u32, usize)>),
}

fn node_size(n: &TNode) -> usize {
    match n {
        TNode::Leaf(e, _) => 8 + 8 * e.len(),
        TNode::Inner(_, e) => 8 + 8 * e.len(),
    }
}

fn put_u32(buf: &mut Vec<u8>, at: usize, v: u32) {
    buf[at..at + 4].copy_from_slice(&v.to_le_bytes());
}

fn put_rel(buf: &mut Vec<u8>, at: usize, target: usize) {
    let off = target as i64 - at as i64;
    buf[at..at + 4].copy_from_slice(&(off as i32).to_le_bytes());
}

/// Lays the nodes out in index order, then the map header naming `root` and `len`.
fn build(nodes: &[TNode], root: usize, len: u32) -> Vec<u8> {
    let mut addrs = Vec::new();
    let mut at = 0;
    for n in nodes {
        addrs.push(at);
        at += node_size(n);
    }
    let mut buf = vec![0u8; at + 8];
    for (i, n) in nodes.iter().enumerate() {
        let a = addrs[i];
        match n {
            TNode::Leaf(entries, next) => {
                put_u32(&mut buf, a, entries.len() as u32);
                match next {
                    Some(j) => put_rel(&mut buf, a + 4, addrs[*j]),
                    None => put_u32(&mut buf, a + 4, 0),
                }
                for (j, (k, v)) in entries.iter().enumerate() {
                    put_u32(&mut buf, a + 8 + 8 * j, *k);
                    put_u32(&mut buf, a + 12 + 8 * j, *v);
                }
            }
            TNode::Inner(left, entries) => {
                put_u32(&mut buf, a, 0x8000_0000 | entries.len() as u32);
                put_rel(&mut buf, a + 4, addrs[*left]);
                for (j, (k, c)) in entries.iter().enumerate() {
                    put_u32(&mut buf, a + 8 + 8 * j, *k);
                    put_rel(&mut buf, a + 12 + 8 * j, addrs[*c]);
                }
            }
        }
    }
    put_u32(&mut buf, at, len);
    put_rel(&mut buf, at + 4, addrs[root]);
    buf
}

fn first_key(nodes: &[TNode], i: usize) -> u32 {
    match &nodes[i] {
        TNode::Leaf(e, _) => e[0].0,
        TNode::Inner(_, e) => e[0].0,
    }
}

/// Serializes sorted entries into a B-tree with at most `leaf_cap` entries per leaf and
/// at most `fanout` children per inner node.
fn serialize(entries: &[(u32, u32)], leaf_cap: usize, fanout: usize) -> Vec<u8> {
    let mut nodes: Vec<TNode> = Vec::new();
    let chunks: Vec<&[(u32, u32)]> = entries.chunks(leaf_cap).collect();
    let mut level: Vec<usize> = Vec::new();
    for (i, c) in chunks.iter().enumerate() {
        let next = if i + 1 < chunks.len() { Some(i + 1) } else { None };
        nodes.push(TNode::Leaf(c.to_vec(), next));
        level.push(i);
    }
    while level.len() > 1 {
        let mut groups: Vec<Vec<usize>> = level.chunks(fanout).map(|c| c.to_vec()).collect();
        if groups.len() > 1 && groups.last().unwrap().len() < 3 {
            let tail = groups.pop().unwrap();
            let prev = groups.last_mut().unwrap();
            prev.extend(tail);
            if prev.len() > fanout + 2 {
                let half = prev.len() / 2;
                let rest = prev.split_off(half);
                groups.push(rest);
            }
        }
        let mut next_level = Vec::new();
        for g in groups {
            let left = g[0];
            let es = g[1..].iter().map(|&c| (first_key(&nodes, c), c)).collect();
            nodes.push(TNode::Inner(left, es));
            next_level.push(nodes.len() - 1);
        }
        level = next_level;
    }
    build(&nodes, level[0], entries.len() as u32)
}

fn letters(n: u32) -> Vec<(u32, u32)> {
    (1..=n).map(|k| (k, 'a' as u32 + (k - 1) % 26)).collect()
}

fn b0() -> Vec<u8> {
    serialize(&letters(5), 8, 8)
}

fn bytes_err(e: ArchivedBTreeMapError) -> Result<(), CheckArchiveError> {
    Err(CheckArchiveError::CheckBytesError(e))
}

fn outcome(buf: &[u8]) -> Result<(), CheckArchiveError> {
    check_archived_root(buf).map(|_| ())
}

#[test]
fn minimum_map_round_trips() {
    let entries = letters(MIN_ENTRIES_PER_LEAF_NODE as u32);
    let buf = serialize(&entries, 8, 8);
    let layout = check_archived_root(&buf).unwrap();
    assert_eq!(layout.entries(&buf), vec![(1, 'a' as u32)]);
}

#[test]
fn small_map_round_trips() {
    let buf = b0();
    let layout = check_archived_root(&buf).unwrap();
    assert_eq!(layout.entries(&buf), letters(5));
    assert_eq!(layout.nodes.len(), 1);
}

#[test]
fn multi_level_tree() {
    let entries: Vec<(u32, u32)> = (0..10_000).map(|k| (k, 'x' as u32)).collect();
    let buf = serialize(&entries, 16, 8);
    let layout = check_archived_root(&buf).unwrap();
    let leaves = &layout.nodes[layout.first_leaf..];
    assert_eq!(leaves.len(), (10_000 + 15) / 16);
    assert!(leaves[0].depth >= 2);
    assert!(leaves.iter().all(|n| !n.is_inner && n.depth == leaves[0].depth));
    assert_eq!(layout.entries(&buf), entries);
}

#[test]
fn tampered_length() {
    let mut buf = b0();
    let at = buf.len() - 8;
    buf[at] += 1;
    assert_eq!(
        outcome(&buf),
        bytes_err(ArchivedBTreeMapError::LengthMismatch { expected: 6, actual: 5 })
    );
}

#[test]
fn tampered_leaf_key() {
    let mut buf = b0();
    buf[8] = 2;
    buf[16] = 1;
    assert_eq!(outcome(&buf), bytes_err(ArchivedBTreeMapError::UnsortedLeafNodeEntries));
}

#[test]
fn swapping_adjacent_entries_is_unsorted() {
    for j in 0..4 {
        let mut entries = letters(5);
        entries.swap(j, j + 1);
        let buf = serialize(&entries, 8, 8);
        assert_eq!(outcome(&buf), bytes_err(ArchivedBTreeMapError::UnsortedLeafNodeEntries));
    }
}

#[test]
fn broken_sibling_link() {
    let entries = letters(12);
    let buf0 = serialize(&entries, 2, 8);
    assert!(outcome(&buf0).is_ok());
    let mut buf = buf0.clone();
    // the first leaf starts at byte 0; its forward pointer is at byte 4
    buf[4..8].copy_from_slice(&[0, 0, 0, 0]);
    assert_eq!(outcome(&buf), bytes_err(ArchivedBTreeMapError::UnlinkedLeafNode));
}

#[test]
fn last_leaf_forward_pointer_not_null() {
    let nodes = vec![TNode::Leaf(vec![(1, 97)], Some(0))];
    let buf = build(&nodes, 0, 1);
    assert_eq!(outcome(&buf), bytes_err(ArchivedBTreeMapError::LastLeafForwardPointerNotNull));
}

#[test]
fn leaf_depth_inversion() {
    // root -> [inner A, inner B, leaf C]; A and B hold leaves one level deeper than C.
    let nodes = vec![
        TNode::Leaf(vec![(1, 97)], Some(1)),  // 0: C
        TNode::Leaf(vec![(2, 97)], Some(2)),  // 1: a1
        TNode::Leaf(vec![(3, 97)], Some(3)),  // 2: a2
        TNode::Leaf(vec![(4, 97)], Some(4)),  // 3: a3
        TNode::Leaf(vec![(5, 97)], Some(5)),  // 4: b1
        TNode::Leaf(vec![(6, 97)], Some(6)),  // 5: b2
        TNode::Leaf(vec![(7, 97)], None),     // 6: b3
        TNode::Inner(1, vec![(3, 2), (4, 3)]), // 7: A
        TNode::Inner(4, vec![(6, 5), (7, 6)]), // 8: B
        TNode::Inner(7, vec![(6, 8), (1, 0)]), // 9: root
    ];
    let buf = build(&nodes, 9, 7);
    assert_eq!(
        outcome(&buf),
        bytes_err(ArchivedBTreeMapError::InvalidLeafNodeDepth { expected: 1, actual: 2 })
    );
}

#[test]
fn inner_node_in_leaf_level() {
    // root -> [leaf, inner, leaf]: the walk stops at the first leaf and then meets the inner node.
    let nodes = vec![
        TNode::Leaf(vec![(1, 97)], Some(1)),
        TNode::Leaf(vec![(2, 97)], Some(2)),
        TNode::Leaf(vec![(3, 97)], Some(3)),
        TNode::Leaf(vec![(4, 97)], None),
        TNode::Inner(1, vec![(3, 2), (4, 3)]),
        TNode::Inner(0, vec![(3, 4), (4, 3)]),
    ];
    let buf = build(&nodes, 5, 4);
    assert_eq!(outcome(&buf), bytes_err(ArchivedBTreeMapError::InnerNodeInLeafLevel));
}

#[test]
fn overlap_attack() {
    let nodes = vec![
        TNode::Leaf(vec![(1, 97)], Some(1)),
        TNode::Leaf(vec![(2, 97)], Some(2)),
        TNode::Leaf(vec![(3, 97)], None),
        TNode::Inner(0, vec![(2, 1), (2, 1)]),
    ];
    let buf = build(&nodes, 3, 3);
    assert_eq!(
        outcome(&buf),
        bytes_err(ArchivedBTreeMapError::ContextError(ContextError::DuplicateClaim))
    );
}

#[test]
fn out_of_buffer_pointer() {
    let entries = letters(12);
    let mut buf = serialize(&entries, 4, 8);
    // the root is the last node; its left-edge pointer sits 4 bytes into it
    let root = buf.len() - 8 - (8 + 8 * 2);
    buf[root + 4..root + 8].copy_from_slice(&1_000_000i32.to_le_bytes());
    assert_eq!(
        outcome(&buf),
        bytes_err(ArchivedBTreeMapError::ContextError(ContextError::OutOfBounds))
    );
}

#[test]
fn mismatched_inner_child_key() {
    let nodes = vec![
        TNode::Leaf(vec![(1, 97)], Some(1)),
        TNode::Leaf(vec![(2, 97)], Some(2)),
        TNode::Leaf(vec![(3, 97)], None),
        TNode::Inner(0, vec![(2, 1), (9, 2)]),
    ];
    let buf = build(&nodes, 3, 3);
    assert_eq!(outcome(&buf), bytes_err(ArchivedBTreeMapError::MismatchedInnerChildKey));
}

#[test]
fn unsorted_leaf_nodes() {
    let nodes = vec![
        TNode::Leaf(vec![(5, 97)], Some(1)),
        TNode::Leaf(vec![(2, 97)], Some(2)),
        TNode::Leaf(vec![(3, 97)], None),
        TNode::Inner(0, vec![(2, 1), (3, 2)]),
    ];
    let buf = build(&nodes, 3, 3);
    assert_eq!(outcome(&buf), bytes_err(ArchivedBTreeMapError::UnsortedLeafNode));
}

#[test]
fn too_few_inner_entries() {
    let nodes = vec![
        TNode::Leaf(vec![(1, 97)], Some(1)),
        TNode::Leaf(vec![(2, 97)], None),
        TNode::Inner(0, vec![(2, 1)]),
    ];
    let buf = build(&nodes, 2, 2);
    assert_eq!(outcome(&buf), bytes_err(ArchivedBTreeMapError::TooFewInnerNodeEntries(1)));
}

#[test]
fn too_few_leaf_entries() {
    let nodes = vec![TNode::Leaf(vec![], None)];
    let buf = build(&nodes, 0, 0);
    assert_eq!(outcome(&buf), bytes_err(ArchivedBTreeMapError::TooFewLeafNodeEntries(0)));
}

#[test]
fn invalid_value() {
    let nodes = vec![TNode::Leaf(vec![(1, 97), (2, 0xD800)], None)];
    let buf = build(&nodes, 0, 2);
    assert_eq!(outcome(&buf), bytes_err(ArchivedBTreeMapError::ValueCheckError(0xD800)));
}

#[test]
fn truncation_fails() {
    let buf = b0();
    for k in 1..buf.len() {
        assert!(outcome(&buf[..buf.len() - k]).is_err(), "truncated by {}", k);
    }
}

#[test]
fn single_byte_mutation_is_detected() {
    let buf = b0();
    let original = check_archived_root(&buf).unwrap().entries(&buf);
    for i in 0..buf.len() {
        for flip in [0x01u8, 0x80] {
            let mut m = buf.clone();
            m[i] ^= flip;
            match check_archived_root(&m) {
                Err(_) => {}
                Ok(l) => assert_ne!(l.entries(&m), original, "byte {} flip {}", i, flip),
            }
        }
    }
}

#[test]
fn short_buffer_is_out_of_bounds() {
    assert_eq!(
        outcome(&[0u8; 7]),
        Err(CheckArchiveError::ContextError(ContextError::OutOfBounds))
    );
}

#[test]
fn value_position_is_checked() {
    let buf = b0();
    let pos = buf.len() - 8;
    assert!(check_archived_value(&buf, pos).is_ok());
    assert_eq!(
        check_archived_value(&buf, pos + 2).map(|_| ()),
        Err(CheckArchiveError::ContextError(ContextError::Unaligned))
    );
    assert_eq!(
        check_archived_value(&buf, pos + 4).map(|_| ()),
        Err(CheckArchiveError::ContextError(ContextError::Overrun))
    );
}

#[test]
fn meta_splits_flag_and_count() {
    assert_eq!(split_meta(0x8000_0003), (true, 3));
    assert_eq!(split_meta(7), (false, 7));
    assert_eq!(split_meta(0xFFFF_FFFF), (true, 0x7FFF_FFFF));
}

#[test]
fn node_layouts() {
    assert_eq!(Node::layout_raw(3), Some(Layout { size: 32, align: 4 }));
    assert_eq!(Node::layout_raw(0), Some(Layout { size: 8, align: 4 }));
    assert_eq!(Node::layout_raw(usize::MAX), None);
    let largest = (isize::MAX as usize - 8) / 8;
    assert_eq!(Node::layout_raw(largest), Some(Layout { size: 8 + 8 * largest, align: 4 }));
    assert_eq!(Node::layout_raw(largest + 1), None);
    assert_eq!(<u32 as LayoutRaw>::layout_raw(9), Some(Layout { size: 4, align: 4 }));
}

#[test]
fn validated_nodes_do_not_overlap() {
    let entries: Vec<(u32, u32)> = (0..500).map(|k| (k * 3, 'q' as u32)).collect();
    let buf = serialize(&entries, 7, 5);
    let layout = check_archived_root(&buf).unwrap();
    let spans: Vec<(usize, usize)> =
        layout.nodes.iter().map(|n| (n.addr, n.addr + 8 + 8 * n.count)).collect();
    for (i, a) in spans.iter().enumerate() {
        assert!(a.1 <= buf.len() - 8);
        for b in &spans[i + 1..] {
            assert!(a.1 <= b.0 || b.1 <= a.0);
        }
    }
    assert!(8 * layout.nodes.len() <= buf.len());
    assert!(layout.nodes.len() - layout.first_leaf <= entries.len());
}
