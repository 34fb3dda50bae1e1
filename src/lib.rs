//! Finds dependencies that several members of a workspace declare on their
//! own, and produces a patch that moves them into the shared
//! `[workspace.dependencies]` table.
pub mod diff;
pub mod merge;
pub mod model;
pub mod names;
pub mod partition;
pub mod patch;
pub mod show;
pub mod toml_doc;

pub use model::{Dependency, DependencyKind, MemberDependency, Package};
pub use partition::partition_dependencies;
