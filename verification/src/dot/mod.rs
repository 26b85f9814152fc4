//! Drawings of functions for Graphviz.

pub mod args;
pub mod branches;
pub mod edge_laws;
pub mod emitter;
pub mod escape_laws;
pub mod function_dot;
pub mod graph_branches;
pub mod graph_dot;
pub mod graph_edge_laws;
pub mod graph_ids;
pub mod ids;
pub mod joined;
pub mod joined_graph;
pub mod label;
pub mod label_laws;
pub mod naming;
pub mod naming_laws;
pub mod neighborhood;
pub mod raw;
pub mod raw_laws;
pub mod spread_laws;
pub mod style;
pub mod style_laws;
