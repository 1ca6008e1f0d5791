//! In-place sorting without allocation or recursion: an iterative quicksort
//! driven by a bounded work stack, and a shellsort over a table of gaps.
//!
//! Both engines take the sequence as a mutable slice and an ordering
//! predicate `less(a, b)`, true when `a` belongs before `b`.
use vstd::prelude::*;

pub mod order;
pub mod quick;
pub mod shell;
pub mod work_stack;
pub mod wrapper;

pub use quick::{quicksort, quicksort_with_depth, DepthExceeded, DEFAULT_MAX_DEPTH};
pub use shell::{check_gaps, shellsort, shellsort_with_gaps, GapTableError, DEFAULT_GAPS};
pub use work_stack::STACK_CAPACITY;
pub use wrapper::Wrapper;

verus! {

} // verus!
