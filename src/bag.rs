//! Bags (multisets) of generic items: insertion and iteration.
pub mod linkedbag;
pub mod resizingbag;
pub mod vecbag;
