//! A garbage collection workbench: a flat byte heap, a root set, a mutator
//! that keeps an independent model of the object graph, and eight collectors
//! built on top of them.

pub mod heap;
pub mod roots;
pub mod stats;
pub mod clock;
pub mod space;
pub mod tiling;
pub mod allocator;
pub mod model;
pub mod trace;
pub mod tricolour;
pub mod collector;
pub mod verify;
pub mod mutator;
pub mod workloads;
pub mod refcount;
pub mod cycles;
pub mod marksweep;
pub mod compact;
pub mod semispace;
pub mod generational;
pub mod incremental;
pub mod checks;
pub mod bench;
pub mod alloc_bench;
