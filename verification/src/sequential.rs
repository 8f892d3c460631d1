//! The table in sequential use: its slots as plain values, what each
//! operation does to them, and the laws that follow.

pub mod counting;
pub mod laws;
pub mod model;
pub mod search;
pub mod undisturbed;
