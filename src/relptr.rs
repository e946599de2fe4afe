//! Relative pointers: a signed offset stored in the archive, resolved against the
//! address of the word that holds it.
use vstd::prelude::*;
use crate::bytes::{i32_le, read_i32_le};

verus! {

/// A relative pointer read from the archive: the address of its word and the offset
/// stored there. It leads to `base + offset`; an offset of zero is null.
#[derive(Debug, Clone, Copy, PartialEq, Eq, Structural)]
pub struct RelPtr {
    pub base: usize,
    pub offset: i64,
}

impl RelPtr {
    /// Reads the relative pointer whose word starts at byte `at` of `buf`.
    pub fn read(buf: &[u8], at: usize) -> (r: RelPtr)
        requires
            at + 4 <= buf@.len(),
        ensures
            r.base == at,
            r.offset == i32_le(buf@, at as int),
    {
        RelPtr { base: at, offset: read_i32_le(buf, at) }
    }

    /// The address of the pointer itself.
    pub fn base(&self) -> (r: usize)
        ensures
            r == self.base,
    {
        self.base
    }

    /// The stored offset.
    pub fn offset(&self) -> (r: i64)
        ensures
            r == self.offset,
    {
        self.offset
    }

    /// Whether the pointer is null.
    pub fn is_null(&self) -> (r: bool)
        ensures
            r == (self.offset == 0),
    {
        self.offset == 0
    }
}

} // verus!
