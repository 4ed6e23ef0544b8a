//! A mark-and-sweep garbage collector over a bitmap-marked, cell-based arena.
//!
//! The arena keeps two bits per 16-byte cell (a block bit and a mark bit) whose
//! four combinations spell both the allocator's bookkeeping and the collector's
//! colour. The collector owns the arenas and a root set, and asks the embedder
//! through [`GCTypeInformation`] which addresses an object refers to.
pub mod gc;
pub mod mem;
pub mod util;

pub use gc::GCTypeInformation;
pub use gc::GC;
