//! A small task store: tasks with an identity, two text fields and a status,
//! kept in memory and exchanged with a line-oriented flat text format.

pub mod task;
pub mod laws;
pub mod model;
pub mod record;
pub mod store;
pub mod text;
