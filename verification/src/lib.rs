//! Fixed-size block integer codec for postings lists.
//!
//! Blocks of [`BLOCK_SIZE`](packed::BLOCK_SIZE) unsigned integers are bit-packed
//! with the narrowest width that holds every value of the block, or reduced to a
//! single scalar when the block is constant.  The layout used for each width is
//! chosen once, stored in a small header, and read back by decoders.

pub mod bulk;
pub mod error;
pub mod for_util;
pub mod packed;
pub mod radix;
pub mod round_trip;
pub mod store;
