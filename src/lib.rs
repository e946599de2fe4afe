//! A validator for zero-copy archives: a bookkeeping context that resolves
//! relative pointers and claims byte ranges, and a checker for archived B-tree
//! maps laid out inside a byte buffer.
pub mod bytes;
pub mod context;
pub mod layout;
pub mod place;
pub mod relptr;
pub mod btree;
pub mod validation;
