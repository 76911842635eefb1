//! The chunk graph of a module bundler: which modules belong to which output
//! chunks, how chunks merge, and the ranking of candidate module groups
//! during code splitting.
pub mod ident;
pub mod ukey_set;
pub mod keyed;
pub mod source_type;
pub mod chunk_graph_chunk;
pub mod chunk_graph;
pub mod chunk;
pub mod integration;
pub mod module_group;
pub mod module_graph;
pub mod queries;
pub mod graph_roots;
pub mod runtime_modules;
pub mod artifacts;
pub mod sizes;
pub mod referenced;
