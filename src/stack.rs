//! Last-in-first-out stacks of generic items.
pub mod linkedstack;
pub mod vecstack;
