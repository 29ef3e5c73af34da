//! Keeps the elements of a document's head in step with a list of declared
//! tags: each tag is mounted into the head, updated in place when it is
//! already there, and removed again when its owner goes away.
//!
//! - [`tag`] holds the tags that can be declared.
//! - [`document`] holds what the library asks of a document, and the model of
//!   a head over which everything is stated; [`memory`] is a document that
//!   lives in memory.
//! - [`reconcile`] mounts and unmounts one tag; [`head_manager`] keeps a
//!   whole list mounted; [`hooks`] is the discipline behind it: what an
//!   effect leaves to be undone is undone once.
//! - [`laws`] and [`round_trip`] prove what follows: that mounting is
//!   idempotent, that tags with different ids do not get in each other's
//!   way, that a list that was mounted and unmounted leaves no trace.

pub mod document;
pub mod head_manager;
pub mod hooks;
pub mod laws;
pub mod memory;
pub mod reconcile;
pub mod round_trip;
pub mod sequences;
pub mod tag;
pub mod text;
