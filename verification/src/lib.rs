//! A small block-addressed filesystem kept inside a fixed-size disk image.
//!
//! The image holds a superblock, two allocation bitmaps, a table of
//! fixed-size inode records and a data area of directory and file blocks.
//! What every operation means is stated as a function on the image's bytes,
//! and the code is proved to compute it, without panics and without
//! overflow.
//!
//! - [`layout`], [`text`]: the records and their byte encodings.
//! - [`device`]: the block store, an image in memory.
//! - [`bitmap`], [`allocator`]: allocation bitmaps, first fit.
//! - [`inode_table`]: reading and replacing inode records.
//! - [`directory`]: entries of a directory block; lookup, insert, remove.
//! - [`path`], [`resolve`]: paths, and the walk from the root along a path.
//! - [`model`], [`fs`]: what the operations mean, and the operations.
//! - [`consistency`], [`effects`], [`moving`], [`laws`]: the invariant of a
//!   consistent image, its preservation, and the laws that follow from it.

pub mod error;
pub mod text;
pub mod layout;
pub mod device;
pub mod bitmap;
pub mod inode_table;
pub mod directory;
pub mod path;
pub mod resolve;
pub mod allocator;
pub mod model;
pub mod fs;
pub mod consistency;
pub mod effects;
pub mod moving;
pub mod laws;
