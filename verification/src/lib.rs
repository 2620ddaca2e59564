//! A single-writer, copy-on-write B+tree over fixed-size pages.
//!
//! The executable layers, leaf first:
//!
//! - `endian`: little-endian integer fields, read and written through the
//!   `byteorder` crate;
//! - `keys`: byte strings in lexicographic order;
//! - `node`: the page codec, a node as a byte buffer with bounds-checked
//!   accessors;
//! - `ops`: pure node operations (lookup, insert, remove, split, merge);
//! - `pager`: the page manager with its free list and its meta page;
//! - `store`, `prune`: nodes read from and written to pages, and the
//!   rebuilding of a path after a delete;
//! - `tree`: the tree, with `get`, `insert` and `del`.
//!
//! What the pages of a tree must look like, and why the operations keep
//! them so, is the matter of `shape`, `route`, `graft`, `update`, `shrink`
//! and `height`. `laws` states what follows for runs of operations.

pub mod endian;
pub mod error;
pub mod graft;
pub mod height;
pub mod keys;
pub mod laws;
pub mod node;
pub mod ops;
pub mod pager;
pub mod prune;
pub mod route;
pub mod shape;
pub mod shrink;
pub mod store;
pub mod tree;
pub mod update;
