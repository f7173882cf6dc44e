//! One-way synchronization of a directory tree: snapshots of a source and a
//! target tree are reconciled into a plan of removals, directory creations and
//! file copies, and the plan is ordered so that it can be applied without
//! violating filesystem invariants.

pub mod fs;
pub mod host;
pub mod path;
pub mod reconcile;
pub mod scan;
pub mod sync;
pub mod text;
