# ffs

A small block-based filesystem, written in Verus: every function of the
library carries a contract, and Verus proves that the code meets it.

## Layout

- `src/device/`: block devices. `BlockDevice` models a device as a sequence
  of 256-byte blocks; `MemoryDevice` keeps them in memory, `CachedDevice`
  puts an LRU write-back cache in front of another device, and
  `CountingDevice` counts the accesses that reach the device behind it.
- `src/formats/v1/`: the on-device format, version 1. A superblock (block 0),
  an inode bitmap, a block bitmap, an inode table and a data region.
  - `bitmap_allocator`: the two bitmaps, with the search for free indices;
  - `inode`, `inode_handler`: inodes and the inode table (direct, indirect
    and doubly indirect blocks). An inode takes 96 bytes of the table, two
    per block: its fields take 92, the last four being the address of the
    double indirect block;
  - `directory`, `directory_handler`: directory entries of variable length
    in directory blocks, with free regions that are split and merged;
  - `path`, `resolver`: path components and their resolution, symbolic
    links included;
  - `format`: formatting, mounting, creating and deleting files and
    directories, opening, reading, writing and seeking;
  - `integrity`: the integrity check of a whole device.
- `src/ffs.rs`: `FFS`, a device together with the format mounted on it.
- `src/laws.rs`: properties that relate several operations.
- `tests/`: tests of the library on concrete values.
- `app/`: a demonstration program, the disk image files of the host and the
  printing of the structures.

The contracts are stated over mathematical models: a device is a
`Seq<Seq<u8>>`, an inode is read from its slot of the inode table with
`inode_at`, a directory block is walked entry by entry with `walk_offs`, and
path resolution is the spec function `resolve_spec`.

A device may promise to be `reliable`: then it never fails on a block it
has. `MemoryDevice` is reliable, a `CountingDevice` is when the device
behind it is, and a `CachedDevice` promises nothing (a block written to it
off the end of the device fails only when it is written back). On a reliable
device the contracts say when an operation succeeds, not only what it does
when it does.
