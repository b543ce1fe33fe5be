//! An operational-transformation format for rich-text documents.
//!
//! A document or a change is a [`Delta`]: an ordered list of insert, retain
//! and delete operations, each optionally carrying formatting attributes.
//! The list is kept canonical by a normalizing append, and the three
//! algorithms that make the format usable for collaborative editing are
//! `compose` (merge two sequential changes), `transform` (rebase a change
//! against a concurrent one) and `diff` (derive the change between two
//! documents).

pub mod attributes;
pub mod compose;
pub mod delta;
pub mod diff;
pub mod iterator;
pub mod laws;
pub mod ops;
pub mod scalar;
pub mod transform;

pub use attributes::Attributes;
pub use attributes::none;
pub use delta::Delta;
pub use diff::DiffError;
pub use diff::FlatUnit;
pub use diff::Hunk;
pub use diff::diff;
pub use iterator::DeltaIterator;
pub use ops::Content;
pub use ops::DeltaOperation;
pub use ops::OpKind;
pub use ops::Tp;
pub use ops::delete;
pub use ops::insert;
pub use ops::retain;
pub use scalar::Scalar;
