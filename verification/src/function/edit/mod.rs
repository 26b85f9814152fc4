//! Edits that keep the set of live nodes up to date.

pub mod clean;
pub mod edit_function;
pub mod laws;
pub mod live;
pub mod model;
pub mod unread;
pub mod verb_laws;
pub mod verbs;
