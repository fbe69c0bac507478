//! Name resolution: file dependencies and symbol tables.

pub mod dependency_graph;
pub mod symbol_table;
