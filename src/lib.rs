//! Named, persistent lists of text items ("marbles"): a deduplicated,
//! lexicographically ordered set with add, remove, listing, random draw,
//! and a line-per-item file format.

pub mod order;
pub mod item_list;
pub mod file_format;
pub mod command;
