//! First-in-first-out queues of generic items.
pub mod linkedqueue;
pub mod resizingqueue;
pub mod svecque;
