//! Detection of circular dependencies among the packages of a workspace.
//!
//! A workspace is a set of packages, each with a unique identifier, a
//! display name, and a list of declared dependency names.  The library
//! builds a directed graph over the workspace members (dependencies on
//! packages outside the workspace are ignored), partitions it into
//! strongly connected components, and reports every genuine cycle:
//! each component with more than one member, and each direct
//! self-dependency, rendered as a closed textual path.

pub mod detect;
pub mod graph;
pub mod invariance;
pub mod laws;
pub mod package;
pub mod petgraph_link;
pub mod reach;
pub mod render;
