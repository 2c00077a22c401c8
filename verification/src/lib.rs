//! A fixed-size pool allocator: slots of one size and one alignment, handed
//! out from blocks of address space that a `BlockSource` provides.

pub mod bitmap;
pub mod block_source;
pub mod errors;
pub mod freelist;
pub mod laws;
pub mod layout;
pub mod model;
pub mod pool;

pub use bitmap::BitMap;
pub use block_source::{BlockSource, SourceCall};
pub use errors::AllocErr;
pub use freelist::FreeList;
pub use pool::{Block, Pool};
