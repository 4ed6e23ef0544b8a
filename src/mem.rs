//! The arena allocator and the object handle.
pub mod arena;
pub mod object;
