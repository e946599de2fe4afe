//! Layouts of archived values, computed from their pointer metadata.
//!
//! Every size here is a multiple of its alignment, so a layout padded to its
//! alignment (the strict mode) equals the unpadded one.
use vstd::prelude::*;
use crate::btree::{node_size, ENTRY_SIZE, HEADER_SIZE, NODE_ALIGN};

verus! {

/// The size and alignment of a value, in bytes.
#[derive(Debug, Clone, Copy, PartialEq, Eq, Structural)]
pub struct Layout {
    pub size: usize,
    pub align: usize,
}

/// A type whose layout follows from the metadata of a pointer to it: the length of a
/// trailing array, ignored for a type without one.
pub trait LayoutRaw {
    /// The size of a value with pointer metadata `metadata`.
    spec fn spec_size(metadata: int) -> int;

    /// The alignment of a value of this type.
    spec fn spec_align() -> int;

    /// The layout of a value with pointer metadata `metadata`, or `None` when its size
    /// exceeds `isize::MAX`, the largest size a layout may have.
    fn layout_raw(metadata: usize) -> (r: Option<Layout>)
        ensures
            r is None <==> Self::spec_size(metadata as int) > isize::MAX,
            r matches Some(l) ==> l.size == Self::spec_size(metadata as int) && l.align
                == Self::spec_align(),
    ;
}

/// A B-tree node: a two-word header followed by `metadata` entries of two words.
pub struct Node;

impl LayoutRaw for Node {
    open spec fn spec_size(metadata: int) -> int {
        node_size(metadata)
    }

    open spec fn spec_align() -> int {
        4
    }

    fn layout_raw(metadata: usize) -> (r: Option<Layout>) {
        if metadata > (isize::MAX as usize - HEADER_SIZE) / ENTRY_SIZE {
            None
        } else {
            Some(Layout { size: HEADER_SIZE + ENTRY_SIZE * metadata, align: NODE_ALIGN })
        }
    }
}

impl LayoutRaw for u32 {
    open spec fn spec_size(metadata: int) -> int {
        4
    }

    open spec fn spec_align() -> int {
        4
    }

    fn layout_raw(metadata: usize) -> (r: Option<Layout>) {
        Some(Layout { size: 4, align: 4 })
    }
}

} // verus!
