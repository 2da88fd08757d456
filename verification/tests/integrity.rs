use ffs::device::block_device::BlockDevice;
use ffs::device::memory_device::MemoryDevice;
use ffs::formats::v1::format::FormatV1;
use ffs::formats::v1::integrity_checker_errors::{InconsistentMetadataData, IntegrityCheckerBitmap, UnallocatedDataData,
    UnreachableDataData, V1IntegrityError};
use ffs::fs_error::FSResult;
use ffs::fs_utils::{FileType, BLOCK_SIZE};

#[test]
fn integrity_checker_bitmap_marks() {
    let mut bm = IntegrityCheckerBitmap::new(20);
    assert!(!bm.visited(19));
    assert!(!bm.visit(19));
    assert!(bm.visited(19));
    assert!(bm.visit(19));
    assert!(!bm.visited(3));
    assert!(!bm.visit(3));
    assert_eq!(bm.count, 2);
}

#[test]
fn integrity_reports_wrong_free_counts() -> FSResult<()> {
    let mut device = MemoryDevice::empty(20);
    FormatV1::format(&mut device)?;
    let mut fs = FormatV1::mount(&mut device)?;
    assert!(fs.check_integrity(&mut device)?.is_ok());

    // a superblock that claims one more free inode and two fewer free blocks
    let mut sb = fs.superblock;
    sb.free_inodes += 1;
    sb.free_data -= 2;
    let mut buf = [0u8; BLOCK_SIZE];
    device.read_block(0, &mut buf)?;
    sb.serialize(&mut buf);
    device.write_block(0, &buf)?;
    fs = FormatV1::mount(&mut device)?;
    let res = fs.check_integrity(&mut device)?;
    assert!(!res.is_ok());
    assert!(res.is_recoverable());
    assert_eq!(res.errors[0], V1IntegrityError::InconsistentMetadata(InconsistentMetadataData::FreeInodes { actual: 6, expected: 5 }));
    assert_eq!(res.errors[1], V1IntegrityError::InconsistentMetadata(InconsistentMetadataData::FreeData { actual: 11, expected: 13 }));
    Ok(())
}

#[test]
fn integrity_reports_freed_but_used_blocks() -> FSResult<()> {
    let mut device = MemoryDevice::empty(20);
    FormatV1::format(&mut device)?;
    let mut fs = FormatV1::mount(&mut device)?;
    fs.create_file(&mut device, "d", FileType::Directory)?;
    let d = fs.directory_handler.resolve(&mut device, b"d", fs.superblock.root_inode, &fs.inode_handler, true)?;
    // the directory's data block is marked free behind its back
    let block = d.target_inode.direct[0];
    fs.block_allocator.deallocate(&mut device, &vec![block])?;
    let res = fs.check_integrity(&mut device)?;
    assert!(res.errors.iter().any(|e| matches!(e, V1IntegrityError::UnallocatedData(UnallocatedDataData::Data { ind, .. }) if *ind == block)));
    Ok(())
}

#[test]
fn integrity_error_kinds() {
    assert!(V1IntegrityError::NoError.is_ok());
    let e = V1IntegrityError::InconsistentMetadata(InconsistentMetadataData::FreeData { actual: 1, expected: 2 });
    assert!(!e.is_ok());
    assert!(e.is_recoverable());
}

#[test]
fn integrity_reports_unreachable_inode_and_block() -> FSResult<()> {
    let mut device = MemoryDevice::empty(20);
    FormatV1::format(&mut device)?;
    let mut fs = FormatV1::mount(&mut device)?;
    // an inode and a data block marked used that nothing reaches
    fs.inode_allocator.allocate(&mut device, &vec![4])?;
    fs.block_allocator.allocate(&mut device, &vec![7])?;
    fs.superblock.free_inodes -= 1;
    fs.superblock.free_data -= 1;
    let res = fs.check_integrity(&mut device)?;
    assert_eq!(res.errors, vec![
        V1IntegrityError::UnreachableData(UnreachableDataData::INode { ind: 4 }),
        V1IntegrityError::UnreachableData(UnreachableDataData::Data { ind: 7 }),
    ]);
    Ok(())
}
