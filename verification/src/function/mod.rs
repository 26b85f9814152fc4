//! A function: the graph and what is known about it.

pub mod call_laws;
pub mod cc;
pub mod edit;
pub mod fact_laws;
pub mod func;
pub mod laws;
pub mod limbs;
pub mod names;
pub mod side_tables;
pub mod text;
