use ffs::device::block_device::BlockDevice;
use ffs::device::counting_device::CountingDevice;
use ffs::device::memory_device::MemoryDevice;
use ffs::fs_error::{FSErrorCode, FSResult};
use ffs::fs_utils::BLOCK_SIZE;

fn assert_error_code<T>(actual: FSResult<T>, expected: FSErrorCode) {
    match actual {
        Ok(_) => panic!("expected an error"),
        Err(e) => assert_eq!(e.code(), expected),
    }
}

#[test]
fn memory_device() -> FSResult<()> {
    let mut device = MemoryDevice::empty(2);
    assert_eq!(device.block_count(), 2);

    let mut buf: [u8; BLOCK_SIZE] = [0; BLOCK_SIZE];

    buf.fill(1u8);
    device.write_block(1, &buf)?;
    device.read_block(1, &mut buf)?;
    assert_eq!(buf, [1u8; BLOCK_SIZE]);

    buf.fill(2u8);
    device.write_block(0, &buf)?;
    device.read_block(0, &mut buf)?;
    assert_eq!(buf, [2u8; BLOCK_SIZE]);
    device.read_block(1, &mut buf)?;
    assert_eq!(buf, [1u8; BLOCK_SIZE]);

    buf.fill(2u8);
    device.write_block(1, &buf)?;
    device.read_block(1, &mut buf)?;
    assert_eq!(buf, [2u8; BLOCK_SIZE]);

    device.resize(10)?;
    assert_eq!(device.block_count(), 10);

    buf.fill(3u8);
    device.write_block(6, &buf)?;
    device.read_block(6, &mut buf)?;
    assert_eq!(buf, [3u8; BLOCK_SIZE]);

    device.resize(5)?;
    assert_eq!(device.block_count(), 5);

    assert_error_code(device.read_block(100, &mut buf), FSErrorCode::InputBlockIndexOOB);
    assert_error_code(device.write_block(100, &buf), FSErrorCode::InputBlockIndexOOB);

    // what a save keeps and a load gives back
    let saved = device.to_blocks().clone();
    device.resize(0)?;
    assert_eq!(device.block_count(), 0);
    device = MemoryDevice::from_blocks(saved);
    assert_eq!(device.block_count(), 5);

    device.read_block(0, &mut buf)?;
    assert_eq!(buf, [2u8; BLOCK_SIZE]);
    device.read_block(1, &mut buf)?;
    assert_eq!(buf, [2u8; BLOCK_SIZE]);
    Ok(())
}

#[test]
fn memory_device_grows_with_zeros() -> FSResult<()> {
    let mut device = MemoryDevice::empty(1);
    let buf = [9u8; BLOCK_SIZE];
    device.write_block(0, &buf)?;
    device.resize(3)?;
    let mut out = [1u8; BLOCK_SIZE];
    device.read_block(2, &mut out)?;
    assert_eq!(out, [0u8; BLOCK_SIZE]);
    device.read_block(0, &mut out)?;
    assert_eq!(out, buf);
    device.flush()?;
    Ok(())
}

#[test]
fn counting_device_counts_accesses() -> FSResult<()> {
    let mut device = CountingDevice::new(MemoryDevice::empty(4));
    let mut buf = [0u8; BLOCK_SIZE];
    device.read_block(1, &mut buf)?;
    device.read_block(2, &mut buf)?;
    device.write_block(3, &[7u8; BLOCK_SIZE])?;
    assert_eq!((device.reads, device.writes), (2, 1));
    // a failed access is counted too, and passes the device's error on
    assert_error_code(device.read_block(10, &mut buf), FSErrorCode::InputBlockIndexOOB);
    assert_eq!((device.reads, device.writes), (3, 1));
    device.read_block(3, &mut buf)?;
    assert_eq!(buf, [7u8; BLOCK_SIZE]);
    assert_eq!(device.block_count(), 4);
    Ok(())
}
