//! Structural comparison of two directory trees: which root-relative file
//! paths exist under one root and not under the other.

pub mod order;
pub mod reconcile;
pub mod walk;
pub mod compare;
pub mod laws;
