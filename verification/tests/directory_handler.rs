use std::cell::{Cell, RefCell};

use ffs::device::block_device::BlockDevice;
use ffs::device::memory_device::MemoryDevice;
use ffs::formats::v1::directory::{DirEntry, Directory};
use ffs::formats::v1::directory_handler::DirectoryHandler;
use ffs::formats::v1::inode::INode;
use ffs::fs_error::{FSError, FSResult, InvalidDirEntryKind, InvalidInputKind};
use ffs::fs_utils::{FileType, BLOCK_SIZE, INVALID_ADDRESS};

#[test]
fn directory_handler() -> FSResult<()> {
    Ok(())
}

fn dir_inode(blocks: &[u32]) -> INode {
    let mut inode = INode::empty(FileType::Directory, u16::MAX, 0);
    for b in blocks {
        inode.add_block(*b);
    }
    inode.size = BLOCK_SIZE as u64 * blocks.len() as u64;
    inode
}

#[test]
fn directory_new_layout() {
    let d = Directory::new(4, 7);
    assert_eq!(d.entries.len(), 3);
    assert_eq!(d.entries[0].inode, 4);
    assert_eq!(d.entries[0].name_len, 1);
    assert_eq!(d.entries[0].name[0], b'.');
    assert_eq!(d.entries[0].record_len, 12);
    assert_eq!(d.entries[1].inode, 7);
    assert_eq!(d.entries[1].name_len, 2);
    assert_eq!(d.entries[1].record_len, 12);
    assert!(d.entries[2].is_free());
    assert_eq!(d.entries[2].record_len, 232);
}

#[test]
fn directory_write_find_add_free() -> FSResult<()> {
    let mut device = MemoryDevice::empty(8);
    let handler = DirectoryHandler::new(2, 0);
    let inode = dir_inode(&[1]);
    handler.write_directory_with_inode(&mut device, &Directory::new(3, 0), &inode)?;

    let found = handler.find_entry(&mut device, &inode, b"..")?;
    let (e, block, offset) = found.unwrap();
    assert_eq!(e.inode, 0);
    assert_eq!(block, 1);
    assert_eq!(offset, 12);
    assert!(handler.find_entry(&mut device, &inode, b"x")?.is_none());

    // room in the free region for a new entry
    let mut entry = DirEntry::new(9, FileType::File, "x");
    let fit = handler.can_fit(&mut device, &inode, &entry)?;
    assert_eq!(fit, Some((1, 24)));
    handler.add_entry_here(&mut device, &inode, &mut entry, 1, 24)?;
    let (e, _, offset) = handler.find_entry(&mut device, &inode, b"x")?.unwrap();
    assert_eq!(e.inode, 9);
    assert_eq!(offset, 24);

    let entries = handler.get_entries(&mut device, &inode, false)?;
    assert_eq!(entries.len(), 3);
    let all = handler.get_entries(&mut device, &inode, true)?;
    assert_eq!(all.len(), 4);
    assert_eq!(all[3].record_len, (BLOCK_SIZE - 24 - 12) as u16);

    // freeing it merges it with the following free region
    let freed = handler.free_region(&mut device, &inode, 1, 24)?;
    assert_eq!(freed, 12);
    assert!(handler.find_entry(&mut device, &inode, b"x")?.is_none());
    let all = handler.get_entries(&mut device, &inode, true)?;
    assert_eq!(all.len(), 3);
    assert_eq!(all[2].record_len, (BLOCK_SIZE - 24) as u16);
    Ok(())
}

#[test]
fn directory_grow_and_resolve() -> FSResult<()> {
    let mut device = MemoryDevice::empty(8);
    let handler = DirectoryHandler::new(2, 0);
    let mut inode = dir_inode(&[1]);
    handler.write_directory_with_inode(&mut device, &Directory::new(0, 0), &inode)?;
    let entry = DirEntry::new(5, FileType::File, "grown");
    handler.add_entry_grow(&mut device, &inode, &entry, 2)?;
    inode.add_block(2);
    let (e, block, offset) = handler.find_entry(&mut device, &inode, b"grown")?.unwrap();
    assert_eq!((e.inode, block, offset), (5, 2, 0));
    assert_eq!(e.file_type, FileType::File);
    Ok(())
}

#[test]
fn directory_layout_errors() {
    let mut device = MemoryDevice::empty(8);
    let handler = DirectoryHandler::new(2, 0);
    let inode = dir_inode(&[1]);
    let mut d = Directory::new(0, 0);
    d.entries.pop();
    match handler.write_directory_with_inode(&mut device, &d, &inode) {
        Err(FSError::InvalidInput(InvalidInputKind::DirEntriesUnderfillBlock)) => {},
        _ => panic!("expected an under-filled block"),
    }
    let mut d = Directory::new(0, 0);
    d.entries.pop();
    d.entries.push(DirEntry::free(BLOCK_SIZE as u16));
    match handler.write_directory_with_inode(&mut device, &d, &inode) {
        Err(FSError::InvalidInput(InvalidInputKind::DirEntriesOverfillBlock)) => {},
        _ => panic!("expected an over-filled block"),
    }
    let mut buf = [0u8; BLOCK_SIZE];
    device.read_block(3, &mut buf).unwrap();
    assert_eq!(buf, [0u8; BLOCK_SIZE]);
}

#[test]
fn directory_entry_roundtrip() {
    let e = DirEntry::new_sized(INVALID_ADDRESS - 1, FileType::Directory, "name", 40);
    assert_eq!(e.record_len, 40);
    let mut buf = [0u8; BLOCK_SIZE];
    e.serialize(&mut buf, 100);
    let back = DirEntry::deserialize(&buf, 100);
    assert_eq!(back.inode, e.inode);
    assert_eq!(back.record_len, 40);
    assert_eq!(back.name_len, 4);
    assert_eq!(&back.name[0..4], b"name");
    assert_eq!(back.file_type, FileType::Directory);
    assert_eq!(DirEntry::min_record_len(4), 16);
}

#[test]
fn directory_iterate_visits_in_order() -> FSResult<()> {
    let mut device = MemoryDevice::empty(8);
    let handler = DirectoryHandler::new(2, 0);
    let inode = dir_inode(&[1]);
    handler.write_directory_with_inode(&mut device, &Directory::new(3, 0), &inode)?;

    // stops at `..`
    let count = Cell::new(0u32);
    handler.iterate(&mut device, &inode, |e, block, _offset| {
        count.set(count.get() + 1);
        assert_eq!(block, 1);
        e.name_len == 2
    })?;
    assert_eq!(count.get(), 2);

    // the whole block
    let offsets = RefCell::new(Vec::new());
    handler.iterate_block_unchecked(&mut device, 1, |_e, block, offset| {
        assert_eq!(block, 1);
        offsets.borrow_mut().push(offset);
        false
    })?;
    assert_eq!(offsets.into_inner(), vec![0, 12, 24]);
    Ok(())
}

#[test]
fn directory_iterate_zero_length_entry() {
    // a block of zeros holds an entry of record length zero
    let mut device = MemoryDevice::empty(8);
    let handler = DirectoryHandler::new(2, 0);
    let inode = dir_inode(&[1]);
    let count = Cell::new(0u32);
    match handler.iterate(&mut device, &inode, |_e, _b, _o| { count.set(count.get() + 1); false }) {
        Err(FSError::InvalidDirEntry(InvalidDirEntryKind::ZeroLength)) => {},
        _ => panic!("expected a zero length entry"),
    }
    assert_eq!(count.get(), 1);
    match handler.iterate_block_unchecked(&mut device, 1, |_e, _b, _o| false) {
        Err(FSError::InvalidDirEntry(InvalidDirEntryKind::ZeroLength)) => {},
        _ => panic!("expected a zero length entry"),
    }
}
