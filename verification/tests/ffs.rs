use ffs::device::memory_device::MemoryDevice;
use ffs::ffs::FFS;
use ffs::formats::v1::file::SeekFrom;
use ffs::formats::v1::format::FormatV1;
use ffs::fs_error::{FSError, FSErrorCode, FSResult, InvalidInputKind};
use ffs::fs_utils::{FileType, BLOCK_SIZE};

fn assert_error_code<T>(actual: FSResult<T>, expected: FSErrorCode) {
    match actual {
        Ok(_) => panic!("expected an error"),
        Err(e) => assert_eq!(e.code(), expected),
    }
}

fn mounted(blocks: u64) -> FSResult<FFS<MemoryDevice>> {
    let mut device = MemoryDevice::empty(blocks);
    FormatV1::format(&mut device)?;
    FFS::mount(device)
}

fn names(ffs: &mut FFS<MemoryDevice>, path: &str) -> FSResult<Vec<(String, FileType)>> {
    let content = ffs.get_directory_content(path)?;
    Ok(content.entries.into_iter().map(|e| (e.filename, e.file_type)).collect())
}

#[test]
fn ffs_write_seek_read() -> FSResult<()> {
    let mut ffs = mounted(100)?;
    ffs.create_file("name.txt")?;
    ffs.create_directory("fold")?;
    ffs.create_file("fold/inner.txt")?;
    let file = ffs.open_file("fold/inner.txt")?;

    let text = b"banana";
    let mut buf = [0u8; 6];
    assert_eq!(ffs.write(&file, text.as_slice())?, 6);
    assert_eq!(ffs.write(&file, text.as_slice())?, 6);

    assert_eq!(ffs.seek(&file, SeekFrom::Current(-6))?, 6);
    assert_eq!(ffs.read(&file, buf.as_mut_slice())?, 6);
    assert_eq!(&buf, b"banana");

    assert_eq!(ffs.seek(&file, SeekFrom::Start(2))?, 2);
    ffs.read(&file, buf.as_mut_slice())?;
    assert_eq!(&buf, b"nanaba");

    assert_eq!(ffs.seek(&file, SeekFrom::End(-8))?, 4);
    ffs.read(&file, buf.as_mut_slice())?;
    assert_eq!(&buf, b"nabana");

    assert!(ffs.check_integrity()?.is_ok());
    Ok(())
}

#[test]
fn ffs_listing() -> FSResult<()> {
    let mut ffs = mounted(40)?;
    ffs.create_file("name.txt")?;
    ffs.create_directory("fold")?;
    ffs.create_file("/fold/inner.txt")?;
    let root = names(&mut ffs, "/")?;
    assert_eq!(root, vec![
        (".".to_string(), FileType::Directory),
        ("..".to_string(), FileType::Directory),
        ("name.txt".to_string(), FileType::File),
        ("fold".to_string(), FileType::Directory),
    ]);
    let fold = names(&mut ffs, "./fold/")?;
    assert_eq!(fold.len(), 3);
    assert_eq!(fold[2], ("inner.txt".to_string(), FileType::File));
    // `..` of a directory leads back to its parent
    assert_eq!(names(&mut ffs, "fold/..")?, root);
    assert_error_code(ffs.get_directory_content("name.txt"), FSErrorCode::NotADirectory);
    assert_error_code(ffs.get_directory_content("missing"), FSErrorCode::DoesNotExist);
    Ok(())
}

#[test]
fn ffs_read_past_end_and_closed_files() -> FSResult<()> {
    let mut ffs = mounted(40)?;
    ffs.create_file("f")?;
    let file = ffs.open_file("f")?;
    let mut buf = [7u8; 4];
    // nothing to read from an empty file
    assert_eq!(ffs.read(&file, &mut buf)?, 0);
    assert_eq!(buf, [7u8; 4]);
    ffs.write(&file, b"abc")?;
    // a seek before the start stops at the start
    assert_eq!(ffs.seek(&file, SeekFrom::Current(-100))?, 0);
    // the read stops at the end of the file
    assert_eq!(ffs.read(&file, &mut buf)?, 3);
    assert_eq!(&buf, b"abc\x07");
    assert_eq!(ffs.seek(&file, SeekFrom::Start(100))?, 100);
    assert_eq!(ffs.read(&file, &mut buf)?, 0);

    ffs.close_file(&file)?;
    match ffs.read(&file, &mut buf) {
        Err(FSError::FileNotOpen { file_id }) => assert_eq!(file_id, file.id),
        _ => panic!("expected a closed file"),
    }
    assert_error_code(ffs.write(&file, b"x"), FSErrorCode::FileNotOpen);
    assert_error_code(ffs.seek(&file, SeekFrom::Start(0)), FSErrorCode::FileNotOpen);
    // closing again is harmless
    ffs.close_file(&file)?;
    Ok(())
}

#[test]
fn ffs_write_across_blocks() -> FSResult<()> {
    let mut ffs = mounted(60)?;
    ffs.create_file("big")?;
    let file = ffs.open_file("big")?;
    let data: Vec<u8> = (0..3 * BLOCK_SIZE + 10).map(|i| (i % 251) as u8).collect();
    let free_before = ffs.free_space()?;
    assert_eq!(ffs.write(&file, &data)?, data.len());
    // four data blocks were taken
    assert_eq!(ffs.free_space()?, free_before - 4 * BLOCK_SIZE);

    let again = ffs.open_file("big")?;
    let mut back = vec![0u8; data.len() + 5];
    assert_eq!(ffs.read(&again, &mut back)?, data.len());
    assert_eq!(&back[..data.len()], &data[..]);

    // overwrite the middle
    ffs.seek(&again, SeekFrom::Start(BLOCK_SIZE as u64 - 2))?;
    ffs.write(&again, &[1, 2, 3, 4])?;
    ffs.seek(&again, SeekFrom::Start(BLOCK_SIZE as u64 - 3))?;
    let mut part = [0u8; 6];
    ffs.read(&again, &mut part)?;
    assert_eq!(part, [data[BLOCK_SIZE - 3], 1, 2, 3, 4, data[BLOCK_SIZE + 2]]);
    assert!(ffs.check_integrity()?.is_ok());
    Ok(())
}

#[test]
fn ffs_delete_and_errors() -> FSResult<()> {
    let mut ffs = mounted(40)?;
    let free = ffs.free_space()?;
    ffs.create_directory("d")?;
    ffs.create_file("d/f")?;
    assert_eq!(ffs.file_exists("d/f")?, (true, Some(FileType::File)));
    assert_eq!(ffs.file_exists("d/g")?, (false, None));
    assert_error_code(ffs.delete("d"), FSErrorCode::DirectoryNotEmpty);
    assert_error_code(ffs.delete("d/g"), FSErrorCode::DoesNotExist);
    assert_error_code(ffs.open_file("d"), FSErrorCode::IsADirectory);
    assert_error_code(ffs.open_file("d/g"), FSErrorCode::FileDoesNotExist);
    assert_error_code(ffs.create_file("d/f/x"), FSErrorCode::NotADirectory);
    assert_error_code(ffs.create_file("nowhere/x"), FSErrorCode::DoesNotExist);

    ffs.delete("d/f")?;
    ffs.delete("d")?;
    assert_eq!(ffs.file_exists("d")?, (false, None));
    assert_eq!(ffs.free_space()?, free);
    assert!(ffs.check_integrity()?.is_ok());

    // links of either kind are not supported by this format
    match ffs.create_symlink("s", "d") {
        Err(FSError::InvalidInput(InvalidInputKind::UnknownFileType)) => {},
        _ => panic!("expected an unsupported symlink"),
    }
    match ffs.link("a", "b") {
        Err(FSError::InvalidInput(InvalidInputKind::Unspecified)) => {},
        _ => panic!("expected an unsupported link"),
    }
    Ok(())
}

#[test]
fn ffs_mount_needs_a_filesystem() {
    // a superblock of version 1 without the magic number
    let mut blocks = vec![[0u8; BLOCK_SIZE]; 20];
    blocks[0][8] = 1;
    match FFS::mount(MemoryDevice::from_blocks(blocks)) {
        Err(FSError::InvalidMagic) => {},
        _ => panic!("expected an unformatted device"),
    }
}

#[test]
fn ffs_free_space_after_format() -> FSResult<()> {
    let mut ffs = mounted(20)?;
    // 20 blocks: superblock, two bitmaps, three inode table blocks, then 14
    // data blocks, one of them the root directory's
    assert_eq!(ffs.free_space()?, 13 * BLOCK_SIZE);
    assert_eq!(ffs.device().to_blocks().len(), 20);
    Ok(())
}

#[test]
fn ffs_write_limits() -> FSResult<()> {
    let mut ffs = mounted(60)?;
    ffs.create_file("f")?;
    let file = ffs.open_file("f")?;
    // nothing to write
    assert_eq!(ffs.write(&file, &[])?, 0);
    // twelve blocks at most
    ffs.seek(&file, SeekFrom::Start(12 * BLOCK_SIZE as u64))?;
    assert_error_code(ffs.write(&file, b"x"), FSErrorCode::MaxINodeSize);
    // the last byte of the write must have an offset
    ffs.seek(&file, SeekFrom::Start(u64::MAX))?;
    match ffs.write(&file, b"xy") {
        Err(FSError::InvalidInput(InvalidInputKind::IndexOOB)) => {},
        _ => panic!("expected an offset overflow"),
    }
    // the last byte of the twelfth block can still be written
    ffs.seek(&file, SeekFrom::Start(12 * BLOCK_SIZE as u64 - 1))?;
    assert_eq!(ffs.write(&file, b"z")?, 1);
    assert!(ffs.check_integrity()?.is_ok());
    Ok(())
}

#[test]
fn ffs_write_short_when_full() -> FSResult<()> {
    // 13 free data blocks: the second file gets the 5 that remain
    let mut ffs = mounted(20)?;
    ffs.create_file("a")?;
    ffs.create_file("b")?;
    let a = ffs.open_file("a")?;
    let b = ffs.open_file("b")?;
    let data = vec![7u8; 8 * BLOCK_SIZE];
    assert_eq!(ffs.write(&a, &data)?, 8 * BLOCK_SIZE);
    assert_eq!(ffs.write(&b, &data)?, 5 * BLOCK_SIZE);
    assert_eq!(ffs.free_space()?, 0);
    // nothing left for a third write past the blocks the file has
    assert_eq!(ffs.write(&b, b"x")?, 0);
    Ok(())
}
