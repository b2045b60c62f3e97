//! Module and import resolution for multi-file languages.
//!
//! A [`ModuleGraph`] holds one module per source file, each with a flat namespace
//! of names that are either defined there or imported from another module.
//! [`ModuleGraph::resolve`] follows imports to the public definition a name refers
//! to, and reports missing names, private targets and import cycles as defined
//! [`ResolveError`]s. The `model` module holds what the contracts speak of, and
//! the `laws` module states what resolution promises on every valid graph.

pub mod error;
pub mod graph;
pub mod id;
pub mod laws;
pub mod model;
pub mod names;
mod tag;

pub use error::ResolveError;
pub use graph::{Entry, ModuleGraph, Visibility};
pub use id::ModuleId;
pub use model::{GraphView, ModuleView};
pub use source_lang::SourceId;
pub use symbol_lang::Symbol;
