//! Priority queues on binary heaps, and heap sort.
pub(crate) mod binheap;
pub mod maxpq;
pub mod minpq;
pub mod order;
pub mod sort;
