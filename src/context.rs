//! The validation context: resolves relative pointers inside a buffer,
//! restricts targets to the active subtree range, and records claimed bytes.
use vstd::prelude::*;
use vstd::set_lib::*;
use crate::relptr::RelPtr;

verus! {

/// Why a context operation refused a pointer or a range.
#[derive(Debug, Clone, Copy, PartialEq, Eq, Structural)]
pub enum ContextError {
    /// The target lies outside the buffer.
    OutOfBounds,
    /// The target is not aligned for its type.
    Unaligned,
    /// The target starts inside the buffer but its value runs past the end.
    Overrun,
    /// The target lies outside the active subtree range.
    SubtreeOutOfRange,
    /// The target overlaps a region that was already claimed.
    DuplicateClaim,
    /// A subtree range was popped out of the order in which it was pushed.
    RangePopOutOfOrder,
    /// A shared address was checked again as a different type.
    SharedTypeMismatch,
    /// Validation finished with subtree ranges still pushed.
    UnpoppedRanges,
}

/// What `check_ptr` gives for a target `base + offset` of `size` bytes aligned to `align`,
/// in a buffer of `len` bytes.
pub open spec fn check_ptr_spec(len: int, base: int, offset: int, size: int, align: int) -> Result<
    int,
    ContextError,
> {
    let target = base + offset;
    if target < 0 || target >= len {
        Err(ContextError::OutOfBounds)
    } else if target % align != 0 {
        Err(ContextError::Unaligned)
    } else if target + size > len {
        Err(ContextError::Overrun)
    } else {
        Ok(target)
    }
}

/// A `Result` over `usize` read as one over `int`.
pub open spec fn widen<E>(r: Result<usize, E>) -> Result<int, E> {
    match r {
        Ok(v) => Ok(v as int),
        Err(e) => Err(e),
    }
}

/// The byte addresses `[lo, lo + size)`.
pub open spec fn span(lo: int, size: int) -> Set<int> {
    set_int_range(lo, lo + size)
}

/// The range that was active before a prefix range was pushed, and the stack
/// height at which it was pushed.
pub struct ArchivePrefixRange {
    lo: usize,
    hi: usize,
    depth: usize,
}

/// The range that was active before a suffix range was pushed, and the stack
/// height at which it was pushed.
pub struct ArchiveSuffixRange {
    lo: usize,
    hi: usize,
    depth: usize,
}

impl ArchivePrefixRange {
    pub closed spec fn saved_lo(&self) -> int {
        self.lo as int
    }

    pub closed spec fn saved_hi(&self) -> int {
        self.hi as int
    }

    pub closed spec fn depth(&self) -> int {
        self.depth as int
    }
}

impl ArchiveSuffixRange {
    pub closed spec fn saved_lo(&self) -> int {
        self.lo as int
    }

    pub closed spec fn saved_hi(&self) -> int {
        self.hi as int
    }

    pub closed spec fn depth(&self) -> int {
        self.depth as int
    }
}

/// Bookkeeping for the validation of one buffer of `len` bytes.
pub struct ArchiveValidator {
    len: usize,
    lo: usize,
    hi: usize,
    depth: usize,
    owned: Vec<bool>,
    shared: Vec<(usize, u64)>,
}

impl ArchiveValidator {
    /// The length of the buffer.
    pub closed spec fn buf_len(&self) -> int {
        self.len as int
    }

    /// Start of the active subtree range.
    pub closed spec fn lo(&self) -> int {
        self.lo as int
    }

    /// End (exclusive) of the active subtree range.
    pub closed spec fn hi(&self) -> int {
        self.hi as int
    }

    /// Number of subtree ranges currently pushed.
    pub closed spec fn depth(&self) -> int {
        self.depth as int
    }

    /// The bytes claimed as owned so far.
    pub closed spec fn owned(&self) -> Set<int> {
        Set::new(|b: int| 0 <= b < self.len && self.owned@[b])
    }

    /// The shared addresses seen so far, with the type tag each was checked as.
    pub closed spec fn shared(&self) -> Map<int, u64> {
        Map::new(
            |a: int| exists|i: int| 0 <= i < self.shared@.len() && self.shared@[i].0 == a,
            |a: int|
                self.shared@[choose|i: int| 0 <= i < self.shared@.len() && self.shared@[i].0 == a].1,
        )
    }

    pub closed spec fn wf(&self) -> bool {
        &&& self.lo <= self.hi <= self.len
        &&& self.owned@.len() == self.len
        &&& forall|i: int, j: int|
            0 <= i < j < self.shared@.len() ==> self.shared@[i].0 != self.shared@[j].0
    }

    /// The claimed bytes all lie inside the buffer, so there are at most `len` of them.
    pub proof fn lemma_owned_bounded(&self)
        requires
            self.wf(),
        ensures
            self.owned().finite(),
            self.owned().len() <= self.buf_len(),
            forall|b: int| self.owned().contains(b) ==> 0 <= b < self.buf_len(),
    {
        lemma_int_range(0, self.len as int);
        lemma_len_subset(self.owned(), set_int_range(0, self.len as int));
    }

    /// A context for a buffer of `len` bytes: the whole buffer is the active range,
    /// nothing is pushed and nothing is claimed.
    pub fn new(len: usize) -> (r: Self)
        ensures
            r.wf(),
            r.buf_len() == len,
            r.lo() == 0,
            r.hi() == len,
            r.depth() == 0,
            r.owned() == Set::<int>::empty(),
            r.shared() == Map::<int, u64>::empty(),
    {
        let mut owned: Vec<bool> = Vec::new();
        let mut i: usize = 0;
        while i < len
            invariant
                i <= len,
                owned@.len() == i,
                forall|j: int| 0 <= j < i ==> !owned@[j],
            decreases len - i,
        {
            owned.push(false);
            i = i + 1;
        }
        let r = ArchiveValidator { len, lo: 0, hi: len, depth: 0, owned, shared: Vec::new() };
        assert(r.owned() =~= Set::<int>::empty());
        assert(r.shared() =~= Map::<int, u64>::empty());
        r
    }

    /// Resolves `base + offset` for a value of `size` bytes aligned to `align`,
    /// without claiming anything.
    pub fn check_ptr(&self, base: usize, offset: i64, size: usize, align: usize) -> (r: Result<
        usize,
        ContextError,
    >)
        requires
            self.wf(),
            align > 0,
        ensures
            widen(r) == check_ptr_spec(
                self.buf_len(),
                base as int,
                offset as int,
                size as int,
                align as int,
            ),
    {
        let target: i128 = base as i128 + offset as i128;
        if target < 0 || target >= self.len as i128 {
            return Err(ContextError::OutOfBounds);
        }
        let t = target as usize;
        if t % align != 0 {
            return Err(ContextError::Unaligned);
        }
        if size > self.len - t {
            return Err(ContextError::Overrun);
        }
        Ok(t)
    }

    /// `check_ptr` for the target of `rel`.
    pub fn check_rel_ptr(&self, rel: &RelPtr, size: usize, align: usize) -> (r: Result<
        usize,
        ContextError,
    >)
        requires
            self.wf(),
            align > 0,
        ensures
            widen(r) == check_ptr_spec(
                self.buf_len(),
                rel.base as int,
                rel.offset as int,
                size as int,
                align as int,
            ),
    {
        self.check_ptr(rel.base(), rel.offset(), size, align)
    }

    /// Checks that `[ptr, ptr + size)` lies inside the active subtree range.
    pub fn check_subtree_ptr_bounds(&self, ptr: usize, size: usize) -> (r: Result<(), ContextError>)
        requires
            self.wf(),
        ensures
            r is Ok <==> self.lo() <= ptr && ptr + size <= self.hi(),
            r is Err ==> r == Err::<(), ContextError>(ContextError::SubtreeOutOfRange),
    {
        if ptr < self.lo || ptr > self.hi || size > self.hi - ptr {
            Err(ContextError::SubtreeOutOfRange)
        } else {
            Ok(())
        }
    }

    /// Resolves `base + offset` and checks that the `size` bytes there lie inside the
    /// active subtree range, without claiming them.
    pub fn check_subtree_ptr(&self, base: usize, offset: i64, size: usize, align: usize) -> (r:
        Result<usize, ContextError>)
        requires
            self.wf(),
            align > 0,
        ensures
            ({
                let c = check_ptr_spec(
                    self.buf_len(),
                    base as int,
                    offset as int,
                    size as int,
                    align as int,
                );
                let t = base + offset;
                if c is Err {
                    widen(r) == c
                } else if self.lo() <= t && t + size <= self.hi() {
                    widen(r) == c
                } else {
                    r == Err::<usize, ContextError>(ContextError::SubtreeOutOfRange)
                }
            }),
    {
        let p = self.check_ptr(base, offset, size, align)?;
        match self.check_subtree_ptr_bounds(p, size) {
            Ok(()) => Ok(p),
            Err(e) => Err(e),
        }
    }

    /// Claims `[ptr, ptr + size)` as owned, unless some byte of it already is.
    pub fn claim_owned(&mut self, ptr: usize, size: usize) -> (r: Result<(), ContextError>)
        requires
            old(self).wf(),
            ptr + size <= old(self).buf_len(),
        ensures
            final(self).wf(),
            final(self).buf_len() == old(self).buf_len(),
            final(self).lo() == old(self).lo(),
            final(self).hi() == old(self).hi(),
            final(self).depth() == old(self).depth(),
            final(self).shared() == old(self).shared(),
            r is Err <==> exists|b: int| span(ptr as int, size as int).contains(b) && old(
                self,
            ).owned().contains(b),
            r is Err ==> r == Err::<(), ContextError>(ContextError::DuplicateClaim),
            r is Err ==> final(self).owned() == old(self).owned(),
            r is Ok ==> final(self).owned() == old(self).owned().union(
                span(ptr as int, size as int),
            ),
    {
        let end = ptr + size;
        let mut i: usize = ptr;
        while i < end
            invariant
                self.wf(),
                ptr <= i <= end,
                end == ptr + size,
                end <= self.len,
                forall|b: int| ptr <= b < i ==> !self.owned@[b],
            decreases end - i,
        {
            if self.owned[i] {
                assert(span(ptr as int, size as int).contains(i as int));
                assert(self.owned().contains(i as int));
                return Err(ContextError::DuplicateClaim);
            }
            i = i + 1;
        }
        let ghost before = self.owned@;
        let mut j: usize = ptr;
        while j < end
            invariant
                self.wf(),
                ptr <= j <= end,
                end == ptr + size,
                end <= self.len,
                self.len == old(self).len,
                self.lo == old(self).lo,
                self.hi == old(self).hi,
                self.depth == old(self).depth,
                self.shared == old(self).shared,
                before == old(self).owned@,
                forall|b: int|
                    0 <= b < self.len ==> self.owned@[b] == (before[b] || (ptr <= b < j)),
            decreases end - j,
        {
            self.owned.set(j, true);
            j = j + 1;
        }
        assert(self.owned() =~= old(self).owned().union(span(ptr as int, size as int)));
        Ok(())
    }

    /// Resolves `base + offset`, checks it against the active subtree range and
    /// claims the `size` bytes there as owned.
    pub fn claim_owned_ptr(&mut self, base: usize, offset: i64, size: usize, align: usize) -> (r:
        Result<usize, ContextError>)
        requires
            old(self).wf(),
            align > 0,
        ensures
            final(self).wf(),
            final(self).buf_len() == old(self).buf_len(),
            final(self).lo() == old(self).lo(),
            final(self).hi() == old(self).hi(),
            final(self).depth() == old(self).depth(),
            final(self).shared() == old(self).shared(),
            ({
                let c = check_ptr_spec(
                    old(self).buf_len(),
                    base as int,
                    offset as int,
                    size as int,
                    align as int,
                );
                let t = base + offset;
                match r {
                    Ok(p) => {
                        &&& c == Ok::<int, ContextError>(p as int)
                        &&& old(self).lo() <= p && p + size <= old(self).hi()
                        &&& forall|b: int|
                            span(p as int, size as int).contains(b) ==> !old(
                                self,
                            ).owned().contains(b)
                        &&& final(self).owned() == old(self).owned().union(
                            span(p as int, size as int),
                        )
                    },
                    Err(e) => {
                        &&& final(self).owned() == old(self).owned()
                        &&& c is Err ==> c == Err::<int, ContextError>(e)
                        &&& c is Ok && !(old(self).lo() <= t && t + size <= old(self).hi())
                            ==> e == ContextError::SubtreeOutOfRange
                        &&& c is Ok && old(self).lo() <= t && t + size <= old(self).hi() ==> (e
                            == ContextError::DuplicateClaim && exists|b: int|
                            span(t, size as int).contains(b) && old(self).owned().contains(b))
                    },
                }
            }),
    {
        let p = self.check_ptr(base, offset, size, align)?;
        let s = self.check_subtree_ptr_bounds(p, size);
        if s.is_err() {
            return Err(ContextError::SubtreeOutOfRange);
        }
        let c = self.claim_owned(p, size);
        match c {
            Ok(()) => Ok(p),
            Err(e) => Err(e),
        }
    }
    /// Narrows the active range to `[lo, root)`, so that targets may only lie before
    /// `root`; `end` is where the object at `root` ends. Fails when `root..end` is not
    /// inside the active range.
    pub fn push_prefix_subtree_range(&mut self, root: usize, end: usize) -> (r: Result<
        ArchivePrefixRange,
        ContextError,
    >)
        requires
            old(self).wf(),
            old(self).depth() < usize::MAX,
        ensures
            final(self).wf(),
            final(self).buf_len() == old(self).buf_len(),
            final(self).owned() == old(self).owned(),
            final(self).shared() == old(self).shared(),
            r is Ok <==> old(self).lo() <= root <= end <= old(self).hi(),
            r is Err ==> r == Err::<ArchivePrefixRange, ContextError>(
                ContextError::SubtreeOutOfRange,
            ) && *final(self) == *old(self),
            r matches Ok(t) ==> {
                &&& final(self).lo() == old(self).lo()
                &&& final(self).hi() == root
                &&& final(self).depth() == old(self).depth() + 1
                &&& t.saved_lo() == old(self).lo()
                &&& t.saved_hi() == old(self).hi()
                &&& t.depth() == old(self).depth()
            },
    {
        if root < self.lo || root > end || end > self.hi {
            return Err(ContextError::SubtreeOutOfRange);
        }
        let t = ArchivePrefixRange { lo: self.lo, hi: self.hi, depth: self.depth };
        self.hi = root;
        self.depth = self.depth + 1;
        Ok(t)
    }

    /// `push_prefix_subtree_range` for the object of `size` bytes at `root`.
    pub fn push_prefix_subtree(&mut self, root: usize, size: usize) -> (r: Result<
        ArchivePrefixRange,
        ContextError,
    >)
        requires
            old(self).wf(),
            old(self).depth() < usize::MAX,
            root + size <= usize::MAX,
        ensures
            final(self).wf(),
            final(self).buf_len() == old(self).buf_len(),
            final(self).owned() == old(self).owned(),
            final(self).shared() == old(self).shared(),
            r is Ok <==> old(self).lo() <= root && root + size <= old(self).hi(),
            r is Err ==> r == Err::<ArchivePrefixRange, ContextError>(
                ContextError::SubtreeOutOfRange,
            ) && *final(self) == *old(self),
            r matches Ok(t) ==> {
                &&& final(self).lo() == old(self).lo()
                &&& final(self).hi() == root
                &&& final(self).depth() == old(self).depth() + 1
                &&& t.saved_lo() == old(self).lo()
                &&& t.saved_hi() == old(self).hi()
                &&& t.depth() == old(self).depth()
            },
    {
        self.push_prefix_subtree_range(root, root + size)
    }

    /// Pops a prefix range: restores the range that was active when it was pushed,
    /// or fails when it is not the range pushed last.
    pub fn pop_prefix_range(&mut self, range: ArchivePrefixRange) -> (r: Result<(), ContextError>)
        requires
            old(self).wf(),
        ensures
            final(self).wf(),
            final(self).buf_len() == old(self).buf_len(),
            final(self).owned() == old(self).owned(),
            final(self).shared() == old(self).shared(),
            r is Ok <==> range.depth() + 1 == old(self).depth() && range.saved_lo()
                <= range.saved_hi() <= old(self).buf_len(),
            r is Err ==> r == Err::<(), ContextError>(ContextError::RangePopOutOfOrder)
                && *final(self) == *old(self),
            r is Ok ==> final(self).lo() == range.saved_lo() && final(self).hi()
                == range.saved_hi() && final(self).depth() == range.depth(),
    {
        if self.depth == 0 || range.depth != self.depth - 1 || range.lo > range.hi || range.hi
            > self.len {
            return Err(ContextError::RangePopOutOfOrder);
        }
        self.lo = range.lo;
        self.hi = range.hi;
        self.depth = range.depth;
        Ok(())
    }

    /// Narrows the active range to `[root, hi)`, so that targets may only lie from
    /// `root` on. Fails when `root` is not inside the active range.
    pub fn push_suffix_subtree_range(&mut self, root: usize) -> (r: Result<
        ArchiveSuffixRange,
        ContextError,
    >)
        requires
            old(self).wf(),
            old(self).depth() < usize::MAX,
        ensures
            final(self).wf(),
            final(self).buf_len() == old(self).buf_len(),
            final(self).owned() == old(self).owned(),
            final(self).shared() == old(self).shared(),
            r is Ok <==> old(self).lo() <= root <= old(self).hi(),
            r is Err ==> r == Err::<ArchiveSuffixRange, ContextError>(
                ContextError::SubtreeOutOfRange,
            ) && *final(self) == *old(self),
            r matches Ok(t) ==> {
                &&& final(self).lo() == root
                &&& final(self).hi() == old(self).hi()
                &&& final(self).depth() == old(self).depth() + 1
                &&& t.saved_lo() == old(self).lo()
                &&& t.saved_hi() == old(self).hi()
                &&& t.depth() == old(self).depth()
            },
    {
        if root < self.lo || root > self.hi {
            return Err(ContextError::SubtreeOutOfRange);
        }
        let t = ArchiveSuffixRange { lo: self.lo, hi: self.hi, depth: self.depth };
        self.lo = root;
        self.depth = self.depth + 1;
        Ok(t)
    }

    /// Pops a suffix range: restores the range that was active when it was pushed,
    /// or fails when it is not the range pushed last.
    pub fn pop_suffix_range(&mut self, range: ArchiveSuffixRange) -> (r: Result<(), ContextError>)
        requires
            old(self).wf(),
        ensures
            final(self).wf(),
            final(self).buf_len() == old(self).buf_len(),
            final(self).owned() == old(self).owned(),
            final(self).shared() == old(self).shared(),
            r is Ok <==> range.depth() + 1 == old(self).depth() && range.saved_lo()
                <= range.saved_hi() <= old(self).buf_len(),
            r is Err ==> r == Err::<(), ContextError>(ContextError::RangePopOutOfOrder)
                && *final(self) == *old(self),
            r is Ok ==> final(self).lo() == range.saved_lo() && final(self).hi()
                == range.saved_hi() && final(self).depth() == range.depth(),
    {
        if self.depth == 0 || range.depth != self.depth - 1 || range.lo > range.hi || range.hi
            > self.len {
            return Err(ContextError::RangePopOutOfOrder);
        }
        self.lo = range.lo;
        self.hi = range.hi;
        self.depth = range.depth;
        Ok(())
    }

    /// Succeeds exactly when every pushed subtree range has been popped.
    pub fn finish(&self) -> (r: Result<(), ContextError>)
        requires
            self.wf(),
        ensures
            r is Ok <==> self.depth() == 0,
            r is Err ==> r == Err::<(), ContextError>(ContextError::UnpoppedRanges),
    {
        if self.depth == 0 {
            Ok(())
        } else {
            Err(ContextError::UnpoppedRanges)
        }
    }
}

/// A context that can also validate shared values: values that several pointers may
/// lead to, checked once, at their first sight.
pub trait SharedArchiveContext {
    /// The context's own invariant.
    spec fn shared_wf(&self) -> bool;

    /// The shared addresses seen so far, with the type tag each was checked as.
    spec fn shared_types(&self) -> Map<int, u64>;

    /// Records the shared value at `ptr` as checked with type tag `type_id`.
    /// `Ok(true)` on its first sight, when the caller must check it; `Ok(false)` when
    /// it was already seen with the same tag; an error when it was seen with another.
    fn check_shared_ptr(&mut self, ptr: usize, type_id: u64) -> (r: Result<bool, ContextError>)
        requires
            old(self).shared_wf(),
        ensures
            final(self).shared_wf(),
            !old(self).shared_types().contains_key(ptr as int) ==> r == Ok::<bool, ContextError>(true)
                && final(self).shared_types() == old(self).shared_types().insert(ptr as int, type_id),
            old(self).shared_types().contains_key(ptr as int) ==> final(self).shared_types() == old(
                self,
            ).shared_types() && (if old(self).shared_types()[ptr as int] == type_id {
                r == Ok::<bool, ContextError>(false)
            } else {
                r == Err::<bool, ContextError>(ContextError::SharedTypeMismatch)
            }),
    ;
}

impl SharedArchiveContext for ArchiveValidator {
    closed spec fn shared_wf(&self) -> bool {
        self.wf()
    }

    closed spec fn shared_types(&self) -> Map<int, u64> {
        self.shared()
    }

    fn check_shared_ptr(&mut self, ptr: usize, type_id: u64) -> (r: Result<bool, ContextError>) {
        let mut i: usize = 0;
        while i < self.shared.len()
            invariant
                self.wf(),
                i <= self.shared@.len(),
                forall|j: int| 0 <= j < i ==> self.shared@[j].0 != ptr,
            decreases self.shared@.len() - i,
        {
            if self.shared[i].0 == ptr {
                proof {
                    let k = choose|k: int|
                        0 <= k < self.shared@.len() && self.shared@[k].0 == ptr as int;
                    assert(k == i as int);
                }
                if self.shared[i].1 == type_id {
                    return Ok(false);
                } else {
                    return Err(ContextError::SharedTypeMismatch);
                }
            }
            i = i + 1;
        }
        let ghost prev = self.shared@;
        self.shared.push((ptr, type_id));
        proof {
            assert forall|a: int| #[trigger]
                self.shared().contains_key(a) == old(self).shared().insert(
                    ptr as int,
                    type_id,
                ).contains_key(a) by {
                if a != ptr as int && self.shared().contains_key(a) {
                    let k = choose|k: int|
                        0 <= k < self.shared@.len() && self.shared@[k].0 == a;
                    assert(prev[k].0 == a);
                }
                if a != ptr as int && old(self).shared().contains_key(a) {
                    let k = choose|k: int| 0 <= k < prev.len() && prev[k].0 == a;
                    assert(self.shared@[k].0 == a);
                }
                if a == ptr as int {
                    assert(self.shared@[prev.len() as int].0 == a);
                }
            }
            assert forall|a: int| #[trigger]
                self.shared().contains_key(a) implies self.shared()[a] == old(
                self,
            ).shared().insert(ptr as int, type_id)[a] by {
                let k = choose|k: int|
                    0 <= k < self.shared@.len() && self.shared@[k].0 == a;
                if a != ptr as int {
                    assert(old(self).shared().contains_key(a));
                    let k2 = choose|k2: int| 0 <= k2 < prev.len() && prev[k2].0 == a;
                    assert(self.shared@[k2].0 == a);
                    assert(k == k2);
                } else {
                    assert(self.shared@[prev.len() as int].0 == a);
                    assert(k == prev.len());
                }
            }
            assert(self.shared() =~= old(self).shared().insert(ptr as int, type_id));
            assert(self.owned() =~= old(self).owned());
        }
        Ok(true)
    }

}

} // verus!
