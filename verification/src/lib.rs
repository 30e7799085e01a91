//! A persistent double-ended sequence built from small shared chunks.
//!
//! The sequence keeps two chunks at each end and a list of chunks in the
//! middle.  Versions share their chunks by reference count, and a version
//! that is the only owner of a chunk changes it in place.
//!
//! `layout` describes the slots as plain sequences and says what each
//! operation does to them; `theorems` says what runs of operations do.
//! `raw_seq` holds the spine, whose contracts refer to those operations,
//! `iter` its traversal, and `handle` the handle with a persistent and an
//! in-place form of every operation.
//!
//! A chunk that is shared is cloned before it is changed, and its elements
//! with it.  So the contracts state what a sequence holds up to clones of
//! the elements (`descent`), and exactly for element types whose clones
//! equal the values they were taken of (`sharing::exact_clone`).

pub mod sharing;
pub mod chunk;
pub mod layout;
pub mod descent;
pub mod raw_seq;
pub mod theorems;
pub mod iter;
pub mod handle;
