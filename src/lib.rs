//! A byte-addressable managed heap: a first-fit allocator over one byte
//! buffer, a mark-and-sweep collector, and a tagged encoding of dynamic
//! values stored in that buffer.
pub mod chain;
pub mod data;
pub mod error;
pub mod heap;
pub mod memory;

pub use data::{SchemeObj, Tag};
pub use error::HeapError;
pub use heap::{children, Heap};
pub use memory::header::Header;
pub use memory::{Mem, MemRead, MemWrite, Memory};
