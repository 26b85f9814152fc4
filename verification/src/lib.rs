//! A sea-of-nodes intermediate representation: the graph, functions over it,
//! their canonical text, edits and drawings.

pub mod arena;
pub mod cache;
pub mod const_value;
pub mod dot;
pub mod entity_set;
pub mod error;
pub mod fmt;
pub mod fmt_laws;
pub mod function;
pub mod function_builder_cc;
pub mod graph;
pub mod id_map;
pub mod interner;
pub mod iterators;
pub mod kind_laws;
pub mod mem_partition;
pub mod node;
pub mod target;
