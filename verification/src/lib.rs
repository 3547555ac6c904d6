//! A minimal content-addressed object store.
//!
//! * [`codec`]: the encoding of an object, a tag, a separator and the
//!   content, and its decoding.
//! * [`digest`]: the identity hash of an encoded object.
//! * [`store`]: the store itself, a map from identity hash to encoded
//!   object with idempotent insertion and kind-checked retrieval.
//! * [`order`] and [`listing`]: the order of names and the payload of a
//!   tree object.
//! * [`tree`]: the builder that writes the snapshot of a directory into the
//!   store as a graph of blob and tree objects.
//! * [`error`]: the failures that these operations report.

pub mod codec;
pub mod digest;
pub mod error;
pub mod listing;
pub mod order;
pub mod store;
pub mod tree;
