//! Scoped, deterministic resource teardown.
//!
//! A [`scope::Tracker`] records resources in construction order and emits
//! exactly one teardown notification per resource: either at an explicit
//! early release, or in reverse construction order when the scope ends.
//! Composite resources notify outer-before-inner.

pub mod laws;
pub mod scope;
pub mod words;
