use std::cell::RefCell;

use ffs::device::block_device::BlockDevice;
use ffs::device::memory_device::MemoryDevice;
use ffs::formats::v1::directory::DirEntry;
use ffs::formats::v1::format::FormatV1;
use ffs::formats::v1::inode::INode;
use ffs::fs_error::{FSErrorCode, FSResult};
use ffs::fs_utils::{FileType, BLOCK_SIZE, INVALID_ADDRESS};

// test utils

fn assert_error_code<T>(actual: FSResult<T>, expected: FSErrorCode) {
    match actual {
        Ok(_) => panic!("expected an error"),
        Err(e) => assert_eq!(e.code(), expected),
    }
}

/// The parent directory and the name of a path.
fn split(path: &str) -> (String, String) {
    match path.rsplit_once('/') {
        Some((parent, name)) => (parent.to_string(), name.to_string()),
        None => (String::new(), path.to_string()),
    }
}

fn parent_inode_index<D: BlockDevice>(device: &mut D, ffs: &FormatV1, parent: &str) -> FSResult<u32> {
    let res = ffs.directory_handler.resolve(device, parent.as_bytes(), ffs.superblock.root_inode, &ffs.inode_handler, true)?;
    Ok(res.target_inode_index)
}

/// The entries of a directory, each with its offset in its block.
fn entries_with_offsets<D: BlockDevice>(device: &mut D, ffs: &FormatV1, dir: &INode) -> FSResult<Vec<(DirEntry, usize)>> {
    let seen = RefCell::new(Vec::new());
    ffs.directory_handler.iterate(device, dir, |entry, _block, offset| {
        seen.borrow_mut().push((entry, offset));
        false
    })?;
    Ok(seen.into_inner())
}

/// Checks the entries of a new directory: `.`, `..`, then one free region.
fn check_new_directory<D: BlockDevice>(device: &mut D, ffs: &FormatV1, dir: &INode, self_ind: u32, parent_ind: u32) -> FSResult<()> {
    let entries = entries_with_offsets(device, ffs, dir)?;
    assert_eq!(entries.len(), 3);
    let (e, _) = &entries[0];
    assert_eq!(e.name_len, 1);
    assert_eq!(e.name[0], b'.');
    assert_eq!(e.record_len, DirEntry::min_record_len(e.name_len));
    assert_eq!(e.inode, self_ind);
    assert_eq!(e.file_type, FileType::Directory);
    assert!(!e.is_free());
    let (e, _) = &entries[1];
    assert_eq!(e.name_len, 2);
    assert_eq!(e.name[0], b'.');
    assert_eq!(e.name[1], b'.');
    assert_eq!(e.record_len, DirEntry::min_record_len(e.name_len));
    assert_eq!(e.inode, parent_ind);
    assert_eq!(e.file_type, FileType::Directory);
    assert!(!e.is_free());
    let (e, offset) = &entries[2];
    assert!(e.is_free());
    assert_eq!(e.record_len, (BLOCK_SIZE - offset) as u16);
    Ok(())
}

/// Creates a valid file or directory and checks it.
fn create<D: BlockDevice>(device: &mut D, ffs: &mut FormatV1, path_str: &str, file_type: FileType) -> FSResult<INode> {
    let initial_free_data = ffs.superblock.free_data;
    let initial_free_inodes = ffs.superblock.free_inodes;
    let (parent, filename) = split(path_str);

    ffs.create_file(device, path_str, file_type)?;

    // the file exists
    let tmp = ffs.file_exists(device, path_str)?;
    assert!(tmp.0);
    assert!(tmp.1.is_some());
    assert_eq!(tmp.1.unwrap(), file_type);

    // the metadata is updated
    let used = if file_type == FileType::Directory { 1 } else { 0 };
    assert_eq!(ffs.superblock.free_data, initial_free_data - used);
    assert_eq!(ffs.superblock.free_inodes, initial_free_inodes - 1);

    // the directory entry
    let parent_ind = parent_inode_index(device, ffs, &parent)?;
    let parent_inode = ffs.inode_handler.read_inode(device, parent_ind)?;
    let tmp = ffs.directory_handler.find_entry(device, &parent_inode, filename.as_bytes())?;
    assert!(tmp.is_some());
    let (entry, _block, _offset) = tmp.unwrap();
    assert_eq!(entry.file_type, file_type);
    assert_eq!(entry.name_len, filename.len() as u16);
    assert_eq!(entry.record_len, DirEntry::min_record_len(entry.name_len));
    assert!(entry.inode != INVALID_ADDRESS);
    assert!(entry.inode < ffs.inode_allocator.max_index());
    assert!(ffs.inode_allocator.is_allocated(device, entry.inode)?);

    // the inode
    let inode = ffs.inode_handler.read_inode(device, entry.inode)?;
    assert_eq!(inode.file_type, file_type);
    assert_eq!(inode.links, 1);
    if file_type == FileType::Directory {
        assert_eq!(inode.size, BLOCK_SIZE as u64);
        assert_eq!(inode.blocks, 1);
        assert!(ffs.block_allocator.is_allocated(device, inode.direct[0])?);
        check_new_directory(device, ffs, &inode, entry.inode, parent_ind)?;
    } else {
        assert_eq!(inode.size, 0);
        assert_eq!(inode.blocks, 0);
    }
    Ok(inode)
}

fn create_file<D: BlockDevice>(device: &mut D, ffs: &mut FormatV1, path_str: &str) -> FSResult<INode> {
    create(device, ffs, path_str, FileType::File)
}

fn create_directory<D: BlockDevice>(device: &mut D, ffs: &mut FormatV1, path_str: &str) -> FSResult<INode> {
    create(device, ffs, path_str, FileType::Directory)
}

/// Deletes a valid file or directory and checks the result.
fn delete<D: BlockDevice>(device: &mut D, ffs: &mut FormatV1, path_str: &str, file_type: FileType) -> FSResult<()> {
    let initial_free_data = ffs.superblock.free_data;
    let initial_free_inodes = ffs.superblock.free_inodes;
    let (parent, filename) = split(path_str);

    let parent_ind = parent_inode_index(device, ffs, &parent)?;
    let parent_inode = ffs.inode_handler.read_inode(device, parent_ind)?;
    let (entry, _block, _offset) = ffs.directory_handler.find_entry(device, &parent_inode, filename.as_bytes())?.unwrap();
    let inode = ffs.inode_handler.read_inode(device, entry.inode)?;

    ffs.delete_file(device, path_str, file_type)?;

    let tmp = ffs.file_exists(device, path_str)?;
    assert!(!tmp.0);

    assert_eq!(ffs.superblock.free_data, initial_free_data + inode.blocks);
    assert_eq!(ffs.superblock.free_inodes, initial_free_inodes + 1);

    assert!(!ffs.inode_allocator.is_allocated(device, entry.inode)?);
    for b in 0..inode.blocks {
        assert!(!ffs.block_allocator.is_allocated(device, inode.direct[b as usize])?);
    }
    Ok(())
}

fn delete_file<D: BlockDevice>(device: &mut D, ffs: &mut FormatV1, path_str: &str) -> FSResult<()> {
    delete(device, ffs, path_str, FileType::File)
}

fn delete_directory<D: BlockDevice>(device: &mut D, ffs: &mut FormatV1, path_str: &str) -> FSResult<()> {
    delete(device, ffs, path_str, FileType::Directory)
}

// FS SETUP

#[test]
fn formatting_mounting() -> FSResult<()> {
    let size = 20;
    let mut device = MemoryDevice::empty(size);
    FormatV1::format(&mut device)?;

    let ffs = FormatV1::mount(&mut device)?;

    // metadata
    assert_eq!(ffs.superblock.total_blocks, 20);
    assert_eq!(ffs.used_data_blocks_count(), 1);
    assert_eq!(ffs.used_inodes_count(), 1);
    assert_ne!(ffs.superblock.root_inode, INVALID_ADDRESS);
    assert!(ffs.superblock.root_inode < ffs.inode_allocator.max_index());

    // root inode
    assert!(ffs.inode_allocator.is_allocated(&mut device, ffs.superblock.root_inode)?);
    let root = ffs.inode_handler.read_inode(&mut device, ffs.superblock.root_inode)?;
    assert_eq!(root.file_type, FileType::Directory);
    assert_eq!(root.links, 1);
    assert_eq!(root.size, BLOCK_SIZE as u64);
    assert_eq!(root.blocks, 1);
    assert_ne!(root.direct[0], INVALID_ADDRESS);
    assert!(root.direct[0] < ffs.inode_allocator.max_index());

    // root entries
    let root_ind = ffs.superblock.root_inode;
    check_new_directory(&mut device, &ffs, &root, root_ind, root_ind)?;

    let res = ffs.check_integrity(&mut device)?;
    assert!(res.is_ok());

    Ok(())
}

#[test]
fn mounting() -> FSResult<()> {
    let size = 20;
    let mut device = MemoryDevice::empty(size);
    FormatV1::format(&mut device)?;

    let mut ffs = FormatV1::mount(&mut device)?;

    // a directory and a nested file
    let dirname = "dir";
    let filename = "dir/file";
    create_directory(&mut device, &mut ffs, dirname)?;
    create_file(&mut device, &mut ffs, filename)?;

    // mount again
    let mut ffs = FormatV1::mount(&mut device)?;

    let tmp = ffs.file_exists(&mut device, dirname)?;
    assert!(tmp.0);
    assert!(tmp.1.is_some());
    assert_eq!(tmp.1.unwrap(), FileType::Directory);

    let tmp = ffs.file_exists(&mut device, filename)?;
    assert!(tmp.0);
    assert!(tmp.1.is_some());
    assert_eq!(tmp.1.unwrap(), FileType::File);

    delete_file(&mut device, &mut ffs, filename)?;
    delete_directory(&mut device, &mut ffs, dirname)?;

    assert!(ffs.check_integrity(&mut device)?.is_ok());

    Ok(())
}

// BASIC WORKFLOWS

#[test]
fn file_creation_deletion() -> FSResult<()> {
    let size = 20;
    let mut device = MemoryDevice::empty(size);
    FormatV1::format(&mut device)?;

    let mut ffs = FormatV1::mount(&mut device)?;

    let filename = "file";
    create_file(&mut device, &mut ffs, filename)?;
    delete_file(&mut device, &mut ffs, filename)?;

    assert!(ffs.check_integrity(&mut device)?.is_ok());

    Ok(())
}

#[test]
fn directory_creation_deletion() -> FSResult<()> {
    let size = 20;
    let mut device = MemoryDevice::empty(size);
    FormatV1::format(&mut device)?;

    let mut ffs = FormatV1::mount(&mut device)?;

    let dirname = "dir";
    let filename = "dir/file";
    create_directory(&mut device, &mut ffs, dirname)?;
    create_file(&mut device, &mut ffs, filename)?;
    delete_file(&mut device, &mut ffs, filename)?;
    delete_directory(&mut device, &mut ffs, dirname)?;

    assert!(ffs.check_integrity(&mut device)?.is_ok());

    Ok(())
}

// ERRORS

#[test]
fn non_empty_directory_deletion() -> FSResult<()> {
    let size = 20;
    let mut device = MemoryDevice::empty(size);
    FormatV1::format(&mut device)?;

    let mut ffs = FormatV1::mount(&mut device)?;

    let dirname = "dir";
    let filename = "dir/file";
    create_directory(&mut device, &mut ffs, dirname)?;
    create_file(&mut device, &mut ffs, filename)?;

    let res = ffs.delete_file(&mut device, dirname, FileType::Directory);
    assert_error_code(res, FSErrorCode::DirectoryNotEmpty);

    assert!(ffs.check_integrity(&mut device)?.is_ok());

    Ok(())
}

#[test]
fn inexistent_file_deletion() -> FSResult<()> {
    let size = 20;
    let mut device = MemoryDevice::empty(size);
    FormatV1::format(&mut device)?;

    let mut ffs = FormatV1::mount(&mut device)?;

    let filename = "file";
    let res = ffs.delete_file(&mut device, filename, FileType::File);
    assert_error_code(res, FSErrorCode::DoesNotExist);

    create_file(&mut device, &mut ffs, filename)?;

    // as a directory
    let res = ffs.delete_file(&mut device, filename, FileType::Directory);
    assert_error_code(res, FSErrorCode::NotADirectory);

    assert!(ffs.check_integrity(&mut device)?.is_ok());

    Ok(())
}

#[test]
fn inexistent_directory_deletion() -> FSResult<()> {
    let size = 20;
    let mut device = MemoryDevice::empty(size);
    FormatV1::format(&mut device)?;

    let mut ffs = FormatV1::mount(&mut device)?;

    let dirname = "dir";
    let res = ffs.delete_file(&mut device, dirname, FileType::Directory);
    assert_error_code(res, FSErrorCode::DoesNotExist);

    create_directory(&mut device, &mut ffs, dirname)?;

    // as a file
    let res = ffs.delete_file(&mut device, dirname, FileType::File);
    assert_error_code(res, FSErrorCode::IsADirectory);

    assert!(ffs.check_integrity(&mut device)?.is_ok());

    Ok(())
}

// RANDOM / STRESS

#[test]
fn create_delete_sequence() -> FSResult<()> {
    let size = 20;
    let mut device = MemoryDevice::empty(size);
    FormatV1::format(&mut device)?;

    let mut ffs = FormatV1::mount(&mut device)?;

    let initial_inodes = ffs.free_inodes_count();
    let initial_blocks = ffs.free_data_blocks_count();

    // create and delete many files
    for i in 0..1000 {
        create_file(&mut device, &mut ffs, &format!("/file{i}"))?;
        delete_file(&mut device, &mut ffs, &format!("/file{i}"))?;

        assert_eq!(ffs.free_inodes_count(), initial_inodes);
        assert_eq!(ffs.free_data_blocks_count(), initial_blocks);
    }

    // create as many files as possible before deleting them
    for i in 0..initial_inodes {
        create_file(&mut device, &mut ffs, &format!("/file{i}"))?;
    }
    for i in 0..initial_inodes {
        let res = ffs.file_exists(&mut device, &format!("/file{i}"))?;
        assert!(res.0);
        assert!(res.1.is_some());
        assert_eq!(res.1.unwrap(), FileType::File);
    }
    for i in 0..initial_inodes {
        delete_file(&mut device, &mut ffs, &format!("/file{i}"))?;
    }

    assert_eq!(ffs.free_inodes_count(), initial_inodes);
    assert_eq!(ffs.free_data_blocks_count(), initial_blocks);

    assert!(ffs.check_integrity(&mut device)?.is_ok());

    Ok(())
}

#[test]
fn fill_inodes() -> FSResult<()> {
    let size = 20;
    let mut device = MemoryDevice::empty(size);
    FormatV1::format(&mut device)?;

    let mut ffs = FormatV1::mount(&mut device)?;

    let initial_inodes = ffs.free_inodes_count();

    for i in 0..initial_inodes {
        create_file(&mut device, &mut ffs, &format!("/file{i}"))?;
    }

    // no inode left: "not enough free inodes"
    let res = ffs.create_file(&mut device, "FULL", FileType::File);
    assert_error_code(res, FSErrorCode::INodeTableFull);

    assert!(ffs.check_integrity(&mut device)?.is_ok());

    Ok(())
}
