use ffs::device::block_device::BlockDevice;
use ffs::device::cached_device::CachedDevice;
use ffs::device::counting_device::CountingDevice;
use ffs::device::memory_device::MemoryDevice;
use ffs::fs_error::{FSError, FSResult, InvalidInputKind};
use ffs::fs_utils::{BLOCK_SIZE, INVALID_ADDRESS};

// Read sequences:
// 1 - only misses
// 2 - miss(1) miss(2) miss(3 -> 1) miss(1 -> 2) hit(3) miss(2 -> 1)
// 3 - miss(1) miss(2) hit(1) miss(3 -> 2) hit(1) miss(2 -> 3)
// 4 - miss(1) hit(1) hit(1) miss(2) hit(1) hit(2) miss(3 -> 1)
// Write sequences:
// 1 - miss(1) miss(1) miss(2) miss(3 -> 1)

/// A cache in front of a counting memory device of 16 blocks.
fn counted(cache_size: usize) -> CachedDevice<CountingDevice<MemoryDevice>> {
    CachedDevice::new(CountingDevice::new(MemoryDevice::empty(16)), cache_size)
}

fn assert_contains<D: BlockDevice>(device: &CachedDevice<D>, blocks: &[u32]) {
    for block in blocks {
        assert!(device.contains(*block));
    }
}

/// Checks the reads and writes that reached the device since the last check.
fn assert_rw_count(device: &CachedDevice<CountingDevice<MemoryDevice>>, seen: &mut (u32, u32), read: u32, wrote: u32) {
    let inner = device.device();
    assert_eq!(inner.reads - seen.0, read);
    assert_eq!(inner.writes - seen.1, wrote);
    *seen = (inner.reads, inner.writes);
}

#[test]
fn read_sequence1() -> FSResult<()> {
    let cache_size = 4;
    let mut device = counted(cache_size);
    let mut seen = (0u32, 0u32);
    let mut buf = [0u8; BLOCK_SIZE];
    let buf = &mut buf;

    device.read_block(1, buf)?;
    assert_contains(&device, &[1]);
    assert_rw_count(&device, &mut seen, 1, 0);
    assert_eq!(device.mru(), 1);

    device.read_block(2, buf)?;
    assert_contains(&device, &[1, 2]);
    assert_rw_count(&device, &mut seen, 1, 0);
    assert_eq!(device.mru(), 2);

    device.read_block(3, buf)?;
    assert_contains(&device, &[1, 2, 3]);
    assert_rw_count(&device, &mut seen, 1, 0);
    assert_eq!(device.mru(), 3);

    device.read_block(4, buf)?;
    assert_contains(&device, &[1, 2, 3, 4]);
    assert_rw_count(&device, &mut seen, 1, 0);
    assert_eq!(device.mru(), 4);

    device.read_block(5, buf)?;
    assert_contains(&device, &[5, 2, 3, 4]);
    assert_rw_count(&device, &mut seen, 1, 0);
    assert_eq!(device.mru(), 5);

    device.read_block(6, buf)?;
    assert_contains(&device, &[5, 6, 3, 4]);
    assert_rw_count(&device, &mut seen, 1, 0);
    assert_eq!(device.mru(), 6);

    device.read_block(7, buf)?;
    assert_contains(&device, &[5, 6, 7, 4]);
    assert_rw_count(&device, &mut seen, 1, 0);
    assert_eq!(device.mru(), 7);

    device.read_block(8, buf)?;
    assert_contains(&device, &[5, 6, 7, 8]);
    assert_rw_count(&device, &mut seen, 1, 0);
    assert_eq!(device.mru(), 8);

    device.read_block(9, buf)?;
    assert_contains(&device, &[9, 6, 7, 8]);
    assert_rw_count(&device, &mut seen, 1, 0);
    assert_eq!(device.mru(), 9);

    Ok(())
}

#[test]
fn read_sequence2() -> FSResult<()> {
    let cache_size = 2;
    let mut device = counted(cache_size);
    let mut seen = (0u32, 0u32);
    let mut buf = [0u8; BLOCK_SIZE];
    let buf = &mut buf;

    device.read_block(1, buf)?;
    assert_contains(&device, &[1]);
    assert_rw_count(&device, &mut seen, 1, 0);
    assert_eq!(device.mru(), 1);

    device.read_block(2, buf)?;
    assert_contains(&device, &[1, 2]);
    assert_rw_count(&device, &mut seen, 1, 0);
    assert_eq!(device.mru(), 2);

    device.read_block(3, buf)?;
    assert_contains(&device, &[3, 2]);
    assert_rw_count(&device, &mut seen, 1, 0);
    assert_eq!(device.mru(), 3);

    device.read_block(1, buf)?;
    assert_contains(&device, &[3, 1]);
    assert_rw_count(&device, &mut seen, 1, 0);
    assert_eq!(device.mru(), 1);

    device.read_block(3, buf)?;
    assert_contains(&device, &[3, 1]);
    assert_rw_count(&device, &mut seen, 0, 0);
    assert_eq!(device.mru(), 3);

    device.read_block(2, buf)?;
    assert_contains(&device, &[3, 2]);
    assert_rw_count(&device, &mut seen, 1, 0);
    assert_eq!(device.mru(), 2);

    Ok(())
}

#[test]
fn read_sequence3() -> FSResult<()> {
    let cache_size = 2;
    let mut device = counted(cache_size);
    let mut seen = (0u32, 0u32);
    let mut buf = [0u8; BLOCK_SIZE];
    let buf = &mut buf;

    device.read_block(1, buf)?;
    assert_contains(&device, &[1]);
    assert_rw_count(&device, &mut seen, 1, 0);
    assert_eq!(device.mru(), 1);

    device.read_block(2, buf)?;
    assert_contains(&device, &[1, 2]);
    assert_rw_count(&device, &mut seen, 1, 0);
    assert_eq!(device.mru(), 2);

    device.read_block(1, buf)?;
    assert_contains(&device, &[1, 2]);
    assert_rw_count(&device, &mut seen, 0, 0);
    assert_eq!(device.mru(), 1);

    device.read_block(3, buf)?;
    assert_contains(&device, &[1, 3]);
    assert_rw_count(&device, &mut seen, 1, 0);
    assert_eq!(device.mru(), 3);

    device.read_block(1, buf)?;
    assert_contains(&device, &[1, 3]);
    assert_rw_count(&device, &mut seen, 0, 0);
    assert_eq!(device.mru(), 1);

    device.read_block(2, buf)?;
    assert_contains(&device, &[1, 2]);
    assert_rw_count(&device, &mut seen, 1, 0);
    assert_eq!(device.mru(), 2);

    Ok(())
}

#[test]
fn read_sequence4() -> FSResult<()> {
    let cache_size = 2;
    let mut device = counted(cache_size);
    let mut seen = (0u32, 0u32);
    let mut buf = [0u8; BLOCK_SIZE];
    let buf = &mut buf;

    device.read_block(1, buf)?;
    assert_contains(&device, &[1]);
    assert_rw_count(&device, &mut seen, 1, 0);
    assert_eq!(device.mru(), 1);

    device.read_block(1, buf)?;
    assert_contains(&device, &[1]);
    assert_rw_count(&device, &mut seen, 0, 0);
    assert_eq!(device.mru(), 1);

    device.read_block(1, buf)?;
    assert_contains(&device, &[1]);
    assert_rw_count(&device, &mut seen, 0, 0);
    assert_eq!(device.mru(), 1);

    device.read_block(2, buf)?;
    assert_contains(&device, &[1, 2]);
    assert_rw_count(&device, &mut seen, 1, 0);
    assert_eq!(device.mru(), 2);

    device.read_block(1, buf)?;
    assert_contains(&device, &[1, 2]);
    assert_rw_count(&device, &mut seen, 0, 0);
    assert_eq!(device.mru(), 1);

    device.read_block(2, buf)?;
    assert_contains(&device, &[1, 2]);
    assert_rw_count(&device, &mut seen, 0, 0);
    assert_eq!(device.mru(), 2);

    device.read_block(3, buf)?;
    assert_contains(&device, &[3, 2]);
    assert_rw_count(&device, &mut seen, 1, 0);
    assert_eq!(device.mru(), 3);

    Ok(())
}

#[test]
fn write_sequence1() -> FSResult<()> {
    let cache_size = 2;
    let mut device = counted(cache_size);
    let mut seen = (0u32, 0u32);
    let buf = [0u8; BLOCK_SIZE];
    let buf = &buf;

    device.write_block(1, buf)?;
    assert_contains(&device, &[1]);
    assert_rw_count(&device, &mut seen, 0, 0);
    assert_eq!(device.mru(), 1);

    device.write_block(1, buf)?;
    assert_contains(&device, &[1]);
    assert_rw_count(&device, &mut seen, 0, 0);
    assert_eq!(device.mru(), 1);

    device.write_block(2, buf)?;
    assert_contains(&device, &[1, 2]);
    assert_rw_count(&device, &mut seen, 0, 0);
    assert_eq!(device.mru(), 2);

    device.write_block(3, buf)?;
    assert_contains(&device, &[3, 2]);
    assert_rw_count(&device, &mut seen, 0, 1);
    assert_eq!(device.mru(), 3);

    device.flush()?;
    assert_rw_count(&device, &mut seen, 0, 2);

    Ok(())
}

#[test]
fn cache_reads_what_was_written() -> FSResult<()> {
    let mut device = CachedDevice::new(MemoryDevice::empty(8), 2);
    let a = [7u8; BLOCK_SIZE];
    let b = [9u8; BLOCK_SIZE];
    device.write_block(1, &a)?;
    device.write_block(2, &b)?;
    // block 1 leaves the cache and is written back
    device.write_block(3, &b)?;
    assert!(!device.contains(1));
    let mut buf = [0u8; BLOCK_SIZE];
    device.read_block(1, &mut buf)?;
    assert_eq!(buf, a);
    device.read_block(2, &mut buf)?;
    assert_eq!(buf, b);
    device.flush()?;
    device.read_block(3, &mut buf)?;
    assert_eq!(buf, b);
    assert_eq!(device.block_count(), 8);
    Ok(())
}

#[test]
fn cache_size_is_at_least_two() -> FSResult<()> {
    let mut device = counted(0);
    let mut seen = (0u32, 0u32);
    let mut buf = [0u8; BLOCK_SIZE];
    device.read_block(1, &mut buf)?;
    device.read_block(2, &mut buf)?;
    assert_contains(&device, &[1, 2]);
    assert_rw_count(&device, &mut seen, 2, 0);
    device.read_block(1, &mut buf)?;
    device.read_block(2, &mut buf)?;
    assert_rw_count(&device, &mut seen, 0, 0);
    Ok(())
}

#[test]
fn cache_empty_mru() {
    let device = counted(3);
    assert_eq!(device.mru(), INVALID_ADDRESS);
    assert!(!device.contains(0));
}

#[test]
fn cache_out_of_range_read_fails() {
    let mut device = CachedDevice::new(MemoryDevice::empty(2), 2);
    let mut buf = [0u8; BLOCK_SIZE];
    match device.read_block(5, &mut buf) {
        Err(FSError::InvalidInput(InvalidInputKind::BlockIndexOOB)) => {},
        _ => panic!("expected an out of range error"),
    }
    assert!(!device.contains(5));
}

#[test]
fn cache_resize_keeps_written_blocks() -> FSResult<()> {
    let mut device = CachedDevice::new(MemoryDevice::empty(4), 2);
    let a = [5u8; BLOCK_SIZE];
    device.write_block(3, &a)?;
    device.resize(6)?;
    assert_eq!(device.block_count(), 6);
    let mut buf = [0u8; BLOCK_SIZE];
    device.read_block(3, &mut buf)?;
    assert_eq!(buf, a);
    device.read_block(5, &mut buf)?;
    assert_eq!(buf, [0u8; BLOCK_SIZE]);
    Ok(())
}

#[test]
fn cache_second_flush_writes_nothing() -> FSResult<()> {
    let mut dev = counted(4);
    let mut seen = (0, 0);
    let buf = [5u8; BLOCK_SIZE];
    dev.write_block(1, &buf)?;
    dev.write_block(2, &buf)?;
    assert_rw_count(&dev, &mut seen, 0, 0);
    dev.flush()?;
    assert_rw_count(&dev, &mut seen, 0, 2);
    dev.flush()?;
    assert_rw_count(&dev, &mut seen, 0, 0);
    // hits reach the device behind the cache neither
    let mut out = [0u8; BLOCK_SIZE];
    dev.read_block(1, &mut out)?;
    dev.write_block(2, &out)?;
    assert_rw_count(&dev, &mut seen, 0, 0);
    assert_eq!(out, buf);
    Ok(())
}
