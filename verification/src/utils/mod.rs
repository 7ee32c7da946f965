//! Task sizing, slices cut for workers, and seeding.

pub mod task_size;
pub mod serialization;
pub mod parallel;
pub mod parallel_slice;
pub mod rand;
