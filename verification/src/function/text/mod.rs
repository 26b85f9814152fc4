//! The canonical text form of a function.

pub mod alike;
pub mod control;
pub mod op_names;
pub mod operations;
pub mod order;
pub mod orderer;
pub mod payload_laws;
pub mod phi_laws;
pub mod placing;
pub mod render;
pub mod same_text;
pub mod settle;
pub mod suffix;
