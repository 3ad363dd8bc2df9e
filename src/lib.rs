//! Boundary analysis for a repository split into path-rooted packages.
//!
//! Every package owns the files below its root, declares which other
//! packages it may depend on, and may mark names as private. The library
//! finds the package owning a file, extracts the constant references that
//! a file makes, resolves them against the definitions of all files and
//! reports dependency and privacy violations. It also validates a
//! configuration, widens dependency lists to cover observed use, and
//! renders package metadata in a canonical form.

mod bytes;

pub mod check;
pub mod extract;
pub mod index;
pub mod lint;
pub mod load;
pub mod model;
pub mod path;
pub mod update;
pub mod validate;
