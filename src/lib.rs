//! An entity store with typed directed relations between its entities and a
//! small query algebra over them.
//!
//! Values of any type live in an arena of `intuicio_framework_arena` and are
//! named by [`Handle`]s. Relations are kept per category in
//! [`relations::RelationsTable`]s, which the [`graph::Graph`] combines with
//! the arena; categories and value types are both named by [`TypeTag`]s.
//! [`query`] turns a root handle into a sequence of projected results, and
//! [`prefab`] rebuilds the edges of a restored snapshot.
pub mod graph;
pub mod handle;
pub mod prefab;
pub mod query;
pub mod relations;

pub use handle::{Handle, TypeTag};
