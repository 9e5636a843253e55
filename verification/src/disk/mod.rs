//! Bookkeeping of the blocks and pieces written to disk.

pub mod block;
pub mod piece_checker;

pub use block::{merge_piece_messages, BlockMetadata};

pub mod context;
pub mod checker_make;
