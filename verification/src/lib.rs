//! A two-semispace heap for a small Scheme runtime.
//!
//! Values are tagged machine words. Heap objects live in the active
//! semispace (tospace) and are reclaimed by a Cheney-style copying collector
//! whose roots are the values on the heap's stack. References are word
//! offsets into the active semispace, so a collection redirects every
//! reference that it keeps.
//!
//! - [`value`]: the encoding of values and object headers.
//! - [`stack`]: the stack of roots.
//! - [`heap`]: the heap, allocation and collection.
//! - [`allocator`]: the operations every heap of the runtime offers.
//! - [`relocate`] and [`scavenge`]: the steps of a collection.
//! - [`check`]: a slow check of a whole semispace.
//! - [`arena`]: the model that the contracts speak of.
//! - [`cycle`]: what holds during a collection.
//! - [`laws`]: what a collection keeps and what it frees.

pub mod allocator;
pub mod arena;
pub mod check;
pub mod cycle;
pub mod heap;
pub mod laws;
pub mod relocate;
pub mod scavenge;
pub mod stack;
pub mod value;
