//! What holds of every request from its start to its end.

pub mod directories;
pub mod patches;
pub mod races;
pub mod reads;
pub mod requests;
pub mod revisions;
pub mod tools;
pub mod writes;
