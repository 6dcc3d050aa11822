//! A shared-ownership handle over an explicit heap of counted blocks.
//!
//! Each block colocates a reference count with its payload; handles are
//! addresses into the heap. Cloning a handle adds an owner, dropping one
//! removes an owner, and the block is released exactly when its last owner
//! goes. Payloads of zero-sized types never take a block.
use vstd::prelude::*;

pub mod protocol;
pub mod handle;

pub use handle::{Arc, BlockLayout, Heap};
