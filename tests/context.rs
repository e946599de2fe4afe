use rkyv::bytes::{read_i32_le, read_u32_le};
use rkyv::context::{ArchiveValidator, ContextError, SharedArchiveContext};
use rkyv::place::Place;
use rkyv::relptr::RelPtr;

#[test]
fn check_ptr_resolves_and_bounds() {
    let ctx = ArchiveValidator::new(32);
    assert_eq!(ctx.check_ptr(8, 4, 8, 4), Ok(12));
    assert_eq!(ctx.check_ptr(8, -8, 8, 4), Ok(0));
    assert_eq!(ctx.check_ptr(8, -12, 8, 4), Err(ContextError::OutOfBounds));
    assert_eq!(ctx.check_ptr(8, 24, 1, 1), Err(ContextError::OutOfBounds));
    assert_eq!(ctx.check_ptr(8, 2, 8, 4), Err(ContextError::Unaligned));
    assert_eq!(ctx.check_ptr(8, 20, 8, 4), Err(ContextError::Overrun));
}

#[test]
fn claims_do_not_overlap() {
    let mut ctx = ArchiveValidator::new(32);
    assert_eq!(ctx.claim_owned_ptr(0, 8, 8, 4), Ok(8));
    assert_eq!(ctx.claim_owned_ptr(0, 12, 8, 4), Err(ContextError::DuplicateClaim));
    assert_eq!(ctx.claim_owned_ptr(0, 16, 8, 4), Ok(16));
    assert_eq!(ctx.claim_owned(0, 8), Ok(()));
    assert_eq!(ctx.claim_owned(4, 1), Err(ContextError::DuplicateClaim));
}

#[test]
fn prefix_range_restricts_and_restores() {
    let mut ctx = ArchiveValidator::new(32);
    let t = ctx.push_prefix_subtree(24, 8).unwrap();
    assert_eq!(ctx.check_subtree_ptr_bounds(16, 8), Ok(()));
    assert_eq!(ctx.check_subtree_ptr_bounds(20, 8), Err(ContextError::SubtreeOutOfRange));
    assert_eq!(ctx.claim_owned_ptr(0, 24, 8, 4), Err(ContextError::SubtreeOutOfRange));
    assert_eq!(ctx.finish(), Err(ContextError::UnpoppedRanges));
    assert_eq!(ctx.pop_prefix_range(t), Ok(()));
    assert_eq!(ctx.check_subtree_ptr_bounds(24, 8), Ok(()));
    assert_eq!(ctx.finish(), Ok(()));
}

#[test]
fn ranges_pop_in_reverse_order() {
    let mut ctx = ArchiveValidator::new(32);
    let outer = ctx.push_prefix_subtree_range(24, 32).unwrap();
    let inner = ctx.push_suffix_subtree_range(8).unwrap();
    assert_eq!(ctx.check_subtree_ptr_bounds(4, 4), Err(ContextError::SubtreeOutOfRange));
    assert_eq!(ctx.check_subtree_ptr_bounds(8, 16), Ok(()));
    assert_eq!(ctx.pop_prefix_range(outer), Err(ContextError::RangePopOutOfOrder));
    assert_eq!(ctx.pop_suffix_range(inner), Ok(()));
    assert_eq!(ctx.push_prefix_subtree_range(30, 40).map(|_| ()), Err(ContextError::SubtreeOutOfRange));
    assert_eq!(ctx.push_suffix_subtree_range(25).map(|_| ()), Err(ContextError::SubtreeOutOfRange));
}

#[test]
fn shared_pointers_are_checked_once() {
    let mut ctx = ArchiveValidator::new(32);
    assert_eq!(ctx.check_shared_ptr(8, 1), Ok(true));
    assert_eq!(ctx.check_shared_ptr(8, 1), Ok(false));
    assert_eq!(ctx.check_shared_ptr(8, 2), Err(ContextError::SharedTypeMismatch));
    assert_eq!(ctx.check_shared_ptr(16, 2), Ok(true));
}

#[test]
fn words_are_little_endian() {
    let b = [0x78u8, 0x56, 0x34, 0x12, 0xfe, 0xff, 0xff, 0xff];
    assert_eq!(read_u32_le(&b, 0), 0x1234_5678);
    assert_eq!(read_i32_le(&b, 4), -2);
    assert_eq!(read_u32_le(&b, 4), 0xffff_fffe);
}

#[test]
fn place_positions() {
    let p = Place::new_unchecked(16, 1000);
    assert_eq!(p.pos(), 16);
    assert_eq!(p.ptr(), 1000);
    let f = Place::from_field_unchecked(p, 1012);
    assert_eq!((f.pos(), f.ptr()), (28, 1012));
    let e = p.index(3, 8);
    assert_eq!((e.pos(), e.ptr()), (40, 1024));
    let c = e.cast_unchecked();
    assert_eq!((c.pos(), c.ptr()), (40, 1024));
}

#[test]
fn subtree_ptr_checks_without_claiming() {
    let mut ctx = ArchiveValidator::new(32);
    let t = ctx.push_prefix_subtree(16, 8).unwrap();
    assert_eq!(ctx.check_subtree_ptr(0, 8, 8, 4), Ok(8));
    assert_eq!(ctx.check_subtree_ptr(0, 8, 8, 4), Ok(8));
    assert_eq!(ctx.check_subtree_ptr(0, 12, 8, 4), Err(ContextError::SubtreeOutOfRange));
    assert_eq!(ctx.check_subtree_ptr(0, 40, 8, 4), Err(ContextError::OutOfBounds));
    assert_eq!(ctx.pop_prefix_range(t), Ok(()));
}

#[test]
fn relative_pointers_resolve_against_their_word() {
    let mut buf = vec![0u8; 16];
    buf[4..8].copy_from_slice(&8i32.to_le_bytes());
    let r = RelPtr::read(&buf, 4);
    assert_eq!((r.base(), r.offset(), r.is_null()), (4, 8, false));
    let ctx = ArchiveValidator::new(16);
    assert_eq!(ctx.check_rel_ptr(&r, 4, 4), Ok(12));
    assert_eq!(ctx.check_rel_ptr(&r, 8, 4), Err(ContextError::Overrun));
    assert!(RelPtr::read(&buf, 0).is_null());
}
