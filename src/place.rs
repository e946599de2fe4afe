//! A place to write a value during serialization: its position in the output
//! buffer paired with the address it is written at.
use vstd::prelude::*;

verus! {

/// A place to write a value, paired with its position in the output buffer.
#[derive(Clone, Copy)]
pub struct Place {
    pos: usize,
    ptr: usize,
}

impl Place {
    pub closed spec fn spec_pos(&self) -> int {
        self.pos as int
    }

    pub closed spec fn spec_ptr(&self) -> int {
        self.ptr as int
    }

    /// A place at position `pos` whose value is written at address `ptr`.
    pub fn new_unchecked(pos: usize, ptr: usize) -> (r: Self)
        ensures
            r.spec_pos() == pos,
            r.spec_ptr() == ptr,
    {
        Place { pos, ptr }
    }

    /// The place of a field at address `ptr` inside the value at `parent`: its
    /// position is as far past `parent`'s as its address is past `parent`'s.
    pub fn from_field_unchecked(parent: Place, ptr: usize) -> (r: Self)
        requires
            parent.spec_ptr() <= ptr,
            parent.spec_pos() + (ptr - parent.spec_ptr()) <= usize::MAX,
        ensures
            r.spec_pos() == parent.spec_pos() + (ptr - parent.spec_ptr()),
            r.spec_ptr() == ptr,
    {
        let offset = ptr - parent.ptr();
        Self::new_unchecked(parent.pos() + offset, ptr)
    }

    /// Returns the position of the place.
    pub fn pos(&self) -> (r: usize)
        ensures
            r == self.spec_pos(),
    {
        self.pos
    }

    /// Returns the address associated with this place.
    pub fn ptr(&self) -> (r: usize)
        ensures
            r == self.spec_ptr(),
    {
        self.ptr
    }

    /// The same place, to hold a value of another type.
    pub fn cast_unchecked(&self) -> (r: Place)
        ensures
            r.spec_pos() == self.spec_pos(),
            r.spec_ptr() == self.spec_ptr(),
    {
        Place { pos: self.pos, ptr: self.ptr }
    }

    /// The place of element `i` of an array of elements of `elem_size` bytes at this place.
    pub fn index(&self, i: usize, elem_size: usize) -> (r: Place)
        requires
            self.spec_pos() + i * elem_size <= usize::MAX,
            self.spec_ptr() + i * elem_size <= usize::MAX,
        ensures
            r.spec_pos() == self.spec_pos() + i * elem_size,
            r.spec_ptr() == self.spec_ptr() + i * elem_size,
    {
        proof {
            vstd::arithmetic::mul::lemma_mul_nonnegative(i as int, elem_size as int);
        }
        let step = i * elem_size;
        Place::new_unchecked(self.pos + step, self.ptr + step)
    }
}

} // verus!
