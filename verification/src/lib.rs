//! Dependency resolution for PreQL pipeline files.
//!
//! A pipeline file may `import` other files, declare named datasources,
//! and `persist` (write to) named datasources. This library extracts
//! those facts from file text, builds a multi-kind dependency edge set
//! over a snapshot of the file system, reconciles conflicting edges, and
//! produces a deterministic execution order by topological sort.
//!
//! The library never touches the file system itself: callers enumerate,
//! read and canonicalize the candidate files and hand the snapshot in.
//!
//! * [`text`] — character scanning primitives.
//! * [`parser`] — the fact extractor, pinned to its grammar specification.
//! * [`paths`] — the lexical path model and import resolution.
//! * [`graph`] — reachability and Kahn's topological sort.
//! * [`edges`] — the four edge kinds and their reconciliation.
//! * [`resolver`] — single-root resolution to a full dependency graph.
//! * [`directory_resolver`] — batch analysis of a pre-enumerated file set.

pub mod directory_resolver;
pub mod edges;
pub mod graph;
pub mod parser;
pub mod paths;
pub mod resolver;
pub mod text;
