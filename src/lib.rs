//! Containers and algorithms: a growable array that manages its own buffer, and the stacks,
//! queues, bags and other structures built beside it.
pub mod bag;
pub mod binary_search;
pub mod bst;
pub mod error;
pub mod graph;
pub mod heap;
pub(crate) mod list;
pub mod primitive;
pub mod queue;
pub mod scanner;
pub mod stack;
pub mod threesum;
pub mod threesum_fast;
pub mod twosum;
pub mod twosum_fast;
pub mod vec;

pub use bag::linkedbag::{LinkedBag, LinkedBagIter};
pub use bag::resizingbag::{ResizingBag, ResizingBagIter};
pub use bag::vecbag::{VecBag, VecBagIter};
pub use bst::{Keys, KeysLevelOrder, KeysRange, BST};
pub use binary_search::{index_of, index_of_i32_seq};
pub use error::{Algs4Error, InvalidArgument};
pub use graph::path::{BreadthFirstPaths, DepthFirstPaths};
pub use graph::Graph;
pub use heap::maxpq::{MaxPQ, MaxPQIntoIter};
pub use heap::minpq::{MinPQ, MinPQIntoIter};
pub use heap::order::lawful_order;
pub use heap::sort::heap_sort;
pub use primitive::{PrimFloat, PrimInt};
pub use queue::linkedqueue::{LinedQueueIter, LinkedQueue};
pub use queue::resizingqueue::{ResizingQueue, ResizingQueueIter};
pub use queue::svecque::{SVecQue, SVecQueIter};
pub use stack::linkedstack::{LinedStackIter, LinkedStack};
pub use stack::vecstack::{VecStack, VecStackIter};
pub use vec::{Drain, SVec, SVecIntoIter};
