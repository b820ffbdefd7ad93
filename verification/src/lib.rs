//! Read-only structural inspection of a frozen SQLite main-file image.
//!
//! Every interpretation here works over byte sequences that the caller has
//! already read; nothing in this crate performs I/O.
pub mod bytes;
pub mod geometry;
pub mod btree;
pub mod signal;
pub mod topology;
pub mod roles;
pub mod inventory;
pub mod freelist;
pub mod overflow;
pub mod links;
pub mod tree_links;
pub mod allocation;
pub mod structure;
pub mod text;
pub mod deep;
pub mod schema;
pub mod pointer_map;
pub mod session;
