//! Entry points: validate an archived B-tree map that lies in a byte buffer.
use vstd::prelude::*;
use crate::btree::{
    check_btree_map, entry_counts, error_cause, has_tree_walk, leaf_outcome, node_size, the_tree_walk,
    valid_layout, well_formed_tree, ArchivedBTreeMapError, BTreeMapLayout,
    HEADER_SIZE, NODE_ALIGN,
};
use crate::bytes::u32_le;
use crate::context::{check_ptr_spec, ArchiveValidator, ContextError};

verus! {

/// Errors that can occur when checking an archive.
#[derive(Debug, Clone, Copy, PartialEq, Eq, Structural)]
pub enum CheckArchiveError {
    /// The archived value itself is malformed.
    CheckBytesError(ArchivedBTreeMapError),
    /// A context operation failed on the root.
    ContextError(ContextError),
}

/// What a successful check of the map at `pos` in `b` guarantees of `l`: the layout is
/// valid, and every node lies before the map header.
pub open spec fn validated(b: Seq<u8>, pos: int, l: BTreeMapLayout) -> bool {
    &&& pos + 8 <= b.len()
    &&& pos % 4 == 0
    &&& valid_layout(b, pos, l.nodes@, l.first_leaf as int)
    &&& 8 * l.nodes@.len() <= b.len()
    &&& forall|k: int|
        0 <= k < l.nodes@.len() ==> (#[trigger] l.nodes@[k]).addr + node_size(l.nodes@[k].count as int)
            <= pos
}

/// What checking the map whose header lies at `pos` of `b` returns: the header's own
/// pointer error if it has one; otherwise success exactly when a well-formed tree lies
/// before the header, and on failure the map check's error, as `CheckBytesError`: for a
/// tree the walk can list, the first rule its leaf level breaks, else the entry-count
/// mismatch.
pub open spec fn value_outcome(b: Seq<u8>, pos: int, r: Result<BTreeMapLayout, CheckArchiveError>) -> bool {
    let hdr = check_ptr_spec(b.len() as int, pos, 0, 8, 4);
    let (w, fl) = the_tree_walk(b, pos, 0, pos, Set::empty());
    &&& hdr matches Err(e) ==> r == Err::<BTreeMapLayout, CheckArchiveError>(
        CheckArchiveError::ContextError(e),
    )
    &&& hdr is Ok ==> (r is Ok <==> well_formed_tree(b, pos, 0, pos, Set::empty()))
    &&& hdr is Ok && r is Err ==> (r matches Err(CheckArchiveError::CheckBytesError(m))
        && error_cause(b, pos, m))
    &&& r matches Ok(l) ==> validated(b, pos, l)
    &&& hdr is Ok && has_tree_walk(b, pos, 0, pos, Set::empty()) ==> {
        &&& leaf_outcome(b, w, fl, fl) matches Some(e) ==> r == Err::<
            BTreeMapLayout,
            CheckArchiveError,
        >(CheckArchiveError::CheckBytesError(e))
        &&& leaf_outcome(b, w, fl, fl) is None && u32_le(b, pos) != entry_counts(w, fl, w.len() as int)
            ==> r == Err::<BTreeMapLayout, CheckArchiveError>(
            CheckArchiveError::CheckBytesError(
                ArchivedBTreeMapError::LengthMismatch {
                    expected: u32_le(b, pos) as usize,
                    actual: entry_counts(w, fl, w.len() as int) as usize,
                },
            ),
        )
    }
}

/// Checks the archived map whose header lies at byte `pos` of `buf`. Every node must
/// lie before the header, and no two nodes may share a byte.
#[verifier::spinoff_prover]
#[verifier::rlimit(60)]
pub fn check_archived_value(buf: &[u8], pos: usize) -> (r: Result<BTreeMapLayout, CheckArchiveError>)
    ensures
        value_outcome(buf@, pos as int, r),
{
    let mut ctx = ArchiveValidator::new(buf.len());
    let p = match ctx.check_ptr(pos, 0, HEADER_SIZE, NODE_ALIGN) {
        Ok(p) => p,
        Err(e) => {
            return Err(CheckArchiveError::ContextError(e));
        },
    };
    let range = match ctx.push_prefix_subtree(p, HEADER_SIZE) {
        Ok(t) => t,
        Err(e) => {
            return Err(CheckArchiveError::ContextError(e));
        },
    };
    let layout = match check_btree_map(buf, &mut ctx, p) {
        Ok(l) => l,
        Err(e) => {
            return Err(CheckArchiveError::CheckBytesError(e));
        },
    };
    match ctx.pop_prefix_range(range) {
        Ok(()) => {},
        Err(e) => {
            return Err(CheckArchiveError::ContextError(e));
        },
    }
    match ctx.finish() {
        Ok(()) => {},
        Err(e) => {
            return Err(CheckArchiveError::ContextError(e));
        },
    }
    Ok(layout)
}

/// Checks the archived map whose header takes the last eight bytes of `buf`: the same
/// result as `check_archived_value` at that position. A buffer too short to hold a
/// header is out of bounds.
pub fn check_archived_root(buf: &[u8]) -> (r: Result<BTreeMapLayout, CheckArchiveError>)
    ensures
        buf@.len() < 8 ==> r == Err::<BTreeMapLayout, CheckArchiveError>(
            CheckArchiveError::ContextError(ContextError::OutOfBounds),
        ),
        buf@.len() >= 8 ==> value_outcome(buf@, buf@.len() - 8, r),
{
    if buf.len() < HEADER_SIZE {
        return Err(CheckArchiveError::ContextError(ContextError::OutOfBounds));
    }
    check_archived_value(buf, buf.len() - HEADER_SIZE)
}

} // verus!
