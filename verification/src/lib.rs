//! Boundary layer between a host runtime and a sandboxed guest module.
//!
//! The host and the guest share nothing but the guest's linear memory, so
//! every value that crosses the boundary is serialized into a byte buffer,
//! and every buffer's ownership is tracked explicitly.  This crate provides
//! the pieces of that boundary:
//!
//! * [`arena`] — the allocation protocol over the guest's memory:
//!   `allocate`, `free`, and `leak_bytes`, which hands a buffer's ownership
//!   outward.
//! * [`value`] — the structured document model carried on the wire.
//! * [`codec`] — the wire format itself: a textual object/array/scalar
//!   encoding, with encoding and parsing proved inverse to each other.
//! * [`error`] — the boundary's error type and the `{"error": ..}` payload.
//! * [`manifest`] — the self-describing route table a module returns once,
//!   at load time.
//! * [`dispatch`] — the generic call path from a raw (pointer, length)
//!   quadruple to a typed handler call and back to a (pointer, length) pair.

pub mod arena;
pub mod codec;
pub mod dispatch;
pub mod error;
pub mod manifest;
pub mod value;
