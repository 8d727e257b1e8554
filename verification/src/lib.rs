//! An embeddable personal data catalog: logical items ("nodes") carry a
//! hierarchical label system ("tags"), and each node's payload is stored as
//! content-addressed, integrity-verified binary data ("blobs").
//!
//! Mutations go through the [`repository::Repository`] facade, which owns the
//! canonical node and tag maps and rebuilds every derived index (path lookup,
//! hierarchy, bitmap membership) in full after each canonical mutation.

pub mod assoc;
pub mod bitmap;
pub mod blob;
pub mod codec;
pub mod node;
pub mod node_type;
pub mod persist;
pub mod repository;
pub mod tag;
