//! The table in concurrent use: calls in flight, the accesses by which they
//! advance, what holds at every moment, and the laws that follow.

pub mod alone;
pub mod coherence;
pub mod laws;
pub mod protocol;
