//! A binary min-heap priority queue with a verified heap-order invariant.
//!
//! The `MinHeap` trait states the behaviour any min-heap realization must
//! provide, over an abstract multiset model; `BinaryHeap` realizes it with an
//! array-backed implicit binary tree.

use vstd::prelude::*;

mod binary_heap;
mod min_heap;

verus! {

pub use binary_heap::BinaryHeap;
pub use binary_heap::father;
pub use binary_heap::is_min_heap;
pub use binary_heap::left_child_index;
pub use binary_heap::left_son;
pub use binary_heap::lemma_root_is_min;
pub use binary_heap::lemma_root_min_of_multiset;
pub use binary_heap::parent_index;
pub use binary_heap::right_child_index;
pub use binary_heap::right_son;
pub use min_heap::MinHeap;
pub use min_heap::lemma_successive_minima_sorted;

} // verus!
