//! Selection of the packages of a workspace that take part in a release.
//!
//! A workspace is a list of packages that depend on one another by path. The
//! library works out, for every package, a set of state flags, derives from
//! them whether the package is changed, selected, blocked or allowed, orders
//! the packages so that dependencies come before their dependents, and
//! returns the packages to release or the reason why the release is blocked.
//!
//! The library reads no file and runs no tool: it is handed what was read of
//! the manifests, the changelogs and the repository, as plain values.

pub mod changes;
pub mod collections;
pub mod criteria;
pub mod dependencies;
pub mod error;
pub mod flags;
pub mod laws;
pub mod matching;
pub mod order;
pub mod package;
pub mod reach;
pub mod report;
pub mod state;
pub mod states;
pub mod version_control;
pub mod workspace;
