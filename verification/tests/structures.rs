use ffs::device::block_device::BlockDevice;
use ffs::device::memory_device::MemoryDevice;
use ffs::formats::v1::directory::DirEntry;
use ffs::formats::v1::format::FormatV1;
use ffs::formats::v1::inode::INode;
use ffs::formats::v1::inode_handler::INodeTableHandler;
use ffs::formats::v1::path::components;
use ffs::formats::v1::superblock::Superblock;
use ffs::fs_error::{FSErrorCode, FSResult};
use ffs::fs_utils::{read_version, FileType, Version, BLOCK_SIZE, INVALID_ADDRESS, MAGIC};

fn assert_error_code<T>(actual: FSResult<T>, expected: FSErrorCode) {
    match actual {
        Ok(_) => panic!("expected an error"),
        Err(e) => assert_eq!(e.code(), expected),
    }
}

#[test]
fn path_components_drop_empty_and_dot() {
    assert_eq!(components(b"/a//b/./c/"), vec![b"a".to_vec(), b"b".to_vec(), b"c".to_vec()]);
    assert_eq!(components(b"../x"), vec![b"..".to_vec(), b"x".to_vec()]);
    assert!(components(b"").is_empty());
    assert!(components(b"/./").is_empty());
}

#[test]
fn superblock_roundtrip() {
    let sb = Superblock::new(MAGIC, 1, BLOCK_SIZE as u32, 20, 1, 1, 3, 0);
    assert_eq!(sb.inode_bitmap_start, 1);
    assert_eq!(sb.block_bitmap_start, 2);
    assert_eq!(sb.inode_table_start, 3);
    assert_eq!(sb.data_start, 6);
    let mut buf = [0xAAu8; BLOCK_SIZE];
    sb.serialize(&mut buf);
    let back = Superblock::deserialize(&buf);
    assert_eq!(back.magic, MAGIC);
    assert_eq!(back.version, 1);
    assert_eq!(back.block_size, BLOCK_SIZE as u32);
    assert_eq!(back.total_blocks, 20);
    assert_eq!(back.inode_table_blocks, 3);
    assert_eq!(back.data_start, 6);
    assert_eq!(back.free_inodes, sb.free_inodes);
    assert_eq!(back.free_data, sb.free_data);
    assert!(matches!(read_version(&buf), Version::V1));
}

#[test]
fn inode_roundtrip() {
    let mut inode = INode::empty(FileType::Directory, 0o755, 1234);
    assert_eq!(inode.blocks, 0);
    assert_eq!(inode.direct, [INVALID_ADDRESS; 12]);
    inode.add_block(7);
    inode.add_block(9);
    inode.size = 300;
    inode.links = 3;
    let mut buf = [0u8; BLOCK_SIZE];
    inode.serialize(&mut buf);
    let back = INode::deserialize(&buf);
    assert_eq!(back.size, 300);
    assert_eq!(back.file_type, FileType::Directory);
    assert_eq!(back.permissions, 0o755);
    assert_eq!(back.direct[0], 7);
    assert_eq!(back.direct[1], 9);
    assert_eq!(back.direct[2], INVALID_ADDRESS);
    assert_eq!(back.created, 1234);
    assert_eq!(back.links, 3);
    assert_eq!(back.blocks, 2);
    assert_eq!(INode::on_disk_size(), 96);
    assert_eq!(INode::inodes_per_block(), 2);
}

#[test]
fn inode_table_blocks_and_growth() -> FSResult<()> {
    let mut device = MemoryDevice::empty(40);
    let handler = INodeTableHandler::new(1, 2, 10);
    let inode = INode::empty(FileType::File, 0, 0);
    handler.write_inode(&mut device, 3, &inode)?;
    let back = handler.read_inode(&mut device, 3)?;
    assert_eq!(back.file_type, FileType::File);
    assert_error_code(handler.read_inode(&mut device, 4), FSErrorCode::InputINodeIndexOOB);

    // twelve direct blocks, then an indirect block is needed
    let mut inode = INode::empty(FileType::File, 0, 0);
    let direct: Vec<u32> = (0..12).collect();
    handler.add_blocks(&mut device, &mut inode, &direct, &vec![])?;
    assert_eq!(inode.blocks, 12);
    assert_eq!(handler.blocks_necessary_to_grow(&inode), 1);
    assert_eq!(handler.blocks_necessary_to_grow_n(&inode, 3), 1);
    assert_error_code(handler.add_block(&mut device, &mut inode, 12, &vec![]), FSErrorCode::InputNotEnoughAllocatedBlocks);
    handler.add_block(&mut device, &mut inode, 12, &vec![20])?;
    handler.add_blocks(&mut device, &mut inode, &vec![13, 14], &vec![])?;
    assert_eq!(inode.blocks, 15);
    assert_eq!(inode.indirect, 20);
    for i in 0..15 {
        assert_eq!(handler.get_block(&mut device, &inode, i)?, i);
    }
    assert_error_code(handler.get_block(&mut device, &inode, 15), FSErrorCode::InputIndexOOB);
    assert_error_code(handler.get_block(&mut device, &inode, 5000), FSErrorCode::InputINodeBlockIndexOOB);
    Ok(())
}

#[test]
fn symbolic_links_are_followed() -> FSResult<()> {
    let mut device = MemoryDevice::empty(20);
    FormatV1::format(&mut device)?;
    let mut fs = FormatV1::mount(&mut device)?;
    fs.create_file(&mut device, "t", FileType::File)?;
    let root_ind = fs.superblock.root_inode;

    // links made by hand: "s" leads to "t", "l" to itself
    let ds = fs.superblock.data_start;
    for (ind, block, target, name) in [(4u32, 10u32, b't', "s"), (5, 11, b'l', "l")] {
        let mut link = INode::empty(FileType::Symlink, u16::MAX, 0);
        link.add_block(block);
        link.size = 1;
        let mut buf = [0u8; BLOCK_SIZE];
        buf[0] = target;
        device.write_block(ds + block, &buf)?;
        fs.inode_handler.write_inode(&mut device, ind, &link)?;
        let root = fs.inode_handler.read_inode(&mut device, root_ind)?;
        let mut entry = DirEntry::new(ind, FileType::Symlink, name);
        let (blk, off) = fs.directory_handler.can_fit(&mut device, &root, &entry)?.unwrap();
        fs.directory_handler.add_entry_here(&mut device, &root, &mut entry, blk, off)?;
    }

    let t = fs.directory_handler.resolve(&mut device, b"t", root_ind, &fs.inode_handler, true)?;
    let followed = fs.directory_handler.resolve(&mut device, b"s", root_ind, &fs.inode_handler, true)?;
    assert_eq!(followed.target_inode_index, t.target_inode_index);
    assert_eq!(followed.target_inode.file_type, FileType::File);
    let kept = fs.directory_handler.resolve(&mut device, b"/s", root_ind, &fs.inode_handler, false)?;
    assert_eq!(kept.target_inode_index, 4);
    assert_eq!(kept.dir_entry.name_len, 1);
    assert_eq!(fs.file_exists(&mut device, "s")?, (true, Some(FileType::Symlink)));

    assert_error_code(fs.directory_handler.resolve(&mut device, b"l", root_ind, &fs.inode_handler, true),
        FSErrorCode::MaximumSymlinkDepthReached);
    // an empty path leads to the directory it starts from
    let here = fs.directory_handler.resolve(&mut device, b"", root_ind, &fs.inode_handler, true)?;
    assert_eq!(here.target_inode_index, root_ind);
    Ok(())
}

#[test]
fn file_type_codes() {
    for (t, code) in [(FileType::File, 0u8), (FileType::Directory, 1), (FileType::Symlink, 2), (FileType::Unknown, 3)] {
        assert_eq!(t.to_le_bytes(), [code]);
        assert_eq!(FileType::from_le_bytes(&[code]), t);
    }
    assert_eq!(FileType::from_le_bytes(&[200]), FileType::Unknown);
    assert_eq!(FileType::Directory.name(), "Directory");
}

#[test]
fn dir_entry_names_are_cut() {
    let long = "x".repeat(70);
    let e = DirEntry::new(1, FileType::File, &long);
    assert_eq!(e.name_len, 64);
    assert_eq!(e.record_len, DirEntry::min_record_len(64));
    let e = DirEntry::new_sized(1, FileType::File, "ab", 4);
    assert_eq!(e.record_len, DirEntry::min_record_len(2));
    assert!(DirEntry::free(20).is_free());
}

#[test]
fn format_refuses_a_device_too_small() {
    // superblock, two bitmaps and an inode table leave no data block
    let mut device = MemoryDevice::empty(4);
    assert_error_code(FormatV1::format(&mut device), FSErrorCode::InputBlockIndexOOB);
    let mut buf = [1u8; BLOCK_SIZE];
    for b in 0..4 {
        device.read_block(b, &mut buf).unwrap();
        assert_eq!(buf, [0u8; BLOCK_SIZE]);
    }
    let mut device = MemoryDevice::empty(5);
    FormatV1::format(&mut device).unwrap();
    let fs = FormatV1::mount(&mut device).unwrap();
    assert_eq!(fs.superblock.data_start, 4);
    assert_eq!(fs.free_data_blocks_count(), 0);
}

#[test]
fn inode_table_bounds_and_direct_blocks() -> FSResult<()> {
    let handler = INodeTableHandler::new(1, 2, 3);
    let mut device = MemoryDevice::empty(8);
    let mut inode = INode::empty(FileType::File, 0o644, 0);
    inode.add_block(5);
    match handler.write_inode(&mut device, 4, &inode) {
        Err(ffs::fs_error::FSError::InvalidInput(ffs::fs_error::InvalidInputKind::INodeIndexOOB { index, max })) => {
            assert_eq!((index, max), (4, 4));
        },
        _ => panic!("expected an inode index out of the table"),
    }
    handler.write_inode(&mut device, 3, &inode)?;
    let back = handler.read_inode(&mut device, 3)?;
    assert_eq!(handler.get_block(&mut device, &back, 0)?, 5);
    assert_error_code(handler.get_block(&mut device, &back, 1), FSErrorCode::InputIndexOOB);
    Ok(())
}
