//! A small block-based filesystem: on-device structures (superblock, bitmaps,
//! inode table, directory blocks) and the logic that reads and updates them.

pub mod fs_utils;
pub mod fs_error;
pub mod device;
pub mod formats;
pub mod ffs;
pub mod laws;
