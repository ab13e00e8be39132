//! An in-memory registry of named items.
//!
//! The store keeps a table from integer identifiers to names, together with a
//! monotonically increasing allocator that hands out each identifier at most
//! once. Items can be created, listed, renamed and deleted; renaming or
//! deleting an identifier the allocator never issued fails with `NotFound`
//! and leaves the table unchanged.

pub mod laws;
pub mod store;
