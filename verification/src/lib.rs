//! Binary heaps stored in a flat vector, with the order of their elements
//! chosen by a priority policy, and a running median built from two of them.

pub mod laws;
pub mod layout;
pub mod max_heap;
pub mod median;
pub mod min_heap;
pub mod model;
pub mod order;
pub mod sift;
pub mod vec_heap;

pub use max_heap::MaxHeap;
pub use median::RunningMedian;
pub use min_heap::MinHeap;
pub use order::Priority;
