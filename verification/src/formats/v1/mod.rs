// Layout of a device formatted with version 1:
//   superblock | inode bitmap | block bitmap | inode table | data
pub mod inode;
pub mod superblock;
pub mod bitmap_allocator;
pub mod inode_handler;
pub mod directory;
pub mod directory_handler;
pub mod path;
pub mod resolver;
pub mod footprint;
pub mod file;
pub mod integrity_checker_errors;
pub mod format;
pub mod integrity;
