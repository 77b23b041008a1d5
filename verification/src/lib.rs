//! A first-fit allocator for one block of memory of fixed capacity.
//!
//! A [`HeapBlock`] stands for a stretch of memory and keeps the list of its free holes, in
//! address order. An allocation is cut out of the first hole that can hold it; memory that is
//! given back becomes a hole again and is fused with the holes that it touches. The block
//! hands out addresses and never touches the memory behind them.
//!
//! The modules, from the ground up:
//!
//! - [`layout`]: the size and alignment of a request, and the rounding of addresses;
//! - [`region`]: address ranges and ordered lists of them, the model of a free list, with
//!   what giving memory back means for such a list;
//! - [`fit`]: what it means for such a list to serve a request;
//! - [`hole`]: the chain of holes, the search in it and the return of memory to it;
//! - [`block`]: the heap block;
//! - [`laws`] and [`partition`]: what holds over more than one request. Memory that is
//!   given back is handed out again, the order in which memory is given back does not matter,
//!   and holes and allocations tile the block at all times.

pub mod block;
pub mod fit;
pub mod hole;
pub mod laws;
pub mod layout;
pub mod partition;
pub mod region;

pub use block::HeapBlock;
pub use hole::{AllocError, Allocation, Hole, HoleInfo, InvalidDeallocation};
pub use layout::Layout;
pub use region::Region;
