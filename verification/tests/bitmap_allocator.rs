use ffs::device::block_device::BlockDevice;
use ffs::device::memory_device::MemoryDevice;
use ffs::formats::v1::bitmap_allocator::BitmapAllocator;
use ffs::fs_error::{FSErrorCode, FSResult};
use ffs::fs_utils::BLOCK_SIZE;

#[test]
fn bitmap_allocator() -> FSResult<()> {
    // 2 blocks for the bitmap, starting at the 6th block, that exclude the last 10 bits
    let mut allocator = BitmapAllocator::new(5, 2, BLOCK_SIZE as u32 * 2 * 8 - 10);
    let mut device = MemoryDevice::empty(10);
    let mut buf = [0u8; BLOCK_SIZE];
    let mut expected = [0u8; BLOCK_SIZE];

    // allocate bit 50 in both bitmap blocks and others in the first
    let mut blocks = vec![50u32, BLOCK_SIZE as u32 * 8 + 50, 5, 2, 60, 3];
    allocator.allocate(&mut device, &blocks)?;

    device.read_block(5, &mut buf)?;
    expected[50 / 8] |= 1 << (50 % 8);
    expected[5 / 8] |= 1 << (5 % 8);
    expected[2 / 8] |= 1 << (2 % 8);
    expected[60 / 8] |= 1 << (60 % 8);
    expected[3 / 8] |= 1 << (3 % 8);
    assert_eq!(buf, expected);

    device.read_block(6, &mut buf)?;
    expected = [0u8; BLOCK_SIZE];
    expected[50 / 8] = 1 << (50 % 8);
    assert_eq!(buf, expected);

    // find and allocate 5 blocks: where they go is not fixed, so only the 1s are counted
    let expected = blocks.len() + 5;
    blocks = allocator.find_free(&mut device, 5)?;
    assert_eq!(blocks.len(), 5);
    allocator.allocate(&mut device, &blocks)?;

    let mut actual = 0;
    device.read_block(5, &mut buf)?;
    for i in 0..BLOCK_SIZE {
        for j in 0..8 {
            if (buf[i] & (1 << j)) != 0 {
                actual += 1;
            }
        }
    }
    device.read_block(6, &mut buf)?;
    for i in 0..BLOCK_SIZE {
        for j in 0..8 {
            if i * 8 + j + BLOCK_SIZE * 8 >= BLOCK_SIZE * 2 * 8 - 10 {
                assert!(buf[i] & (1 << j) == 0);
            } else if (buf[i] & (1 << j)) != 0 {
                actual += 1;
            }
        }
    }
    assert_eq!(actual, expected);

    // allocate one block
    let allocated = allocator.find_allocate(&mut device)?;
    assert!(allocated < BLOCK_SIZE as u32 * 2 - 10);
    if allocated < BLOCK_SIZE as u32 {
        device.read_block(5, &mut buf)?;
    } else {
        device.read_block(6, &mut buf)?;
    }
    assert_eq!(buf[allocated as usize / 8], 1 << (allocated % 8));

    // allocate all the available blocks
    blocks = allocator.find_free(&mut device, BLOCK_SIZE as u32 * 2 * 8)?;
    // number of bits - allocated with find_free - allocated with find_allocate - 10 (invalid bits at the end)
    assert_eq!(blocks.len(), BLOCK_SIZE * 2 * 8 - actual - 1 - 10);
    allocator.allocate(&mut device, &blocks)?;

    // allocate in the full bitmap
    let res = allocator.find_allocate(&mut device).unwrap_err();
    assert_eq!(res.code(), FSErrorCode::StorageFull);

    // find free in the full bitmap
    blocks = allocator.find_free(&mut device, 5)?;
    assert_eq!(blocks.len(), 0);

    // deallocate one block
    allocator.deallocate(&mut device, &vec![0])?;
    device.read_block(5, &mut buf)?;
    assert_eq!(buf[0], 0b11111110);

    // allocate in a full bitmap where all bits are valid addresses
    let mut allocator = BitmapAllocator::new(5, 1, BLOCK_SIZE as u32 * 8);
    let mut device = MemoryDevice::empty(10);

    blocks = allocator.find_free(&mut device, BLOCK_SIZE as u32 * 8)?;
    allocator.allocate(&mut device, &blocks)?;

    let res = allocator.find_allocate(&mut device).unwrap_err();
    assert_eq!(res.code(), FSErrorCode::StorageFull);

    Ok(())
}

#[test]
fn bitmap_allocate_then_deallocate() -> FSResult<()> {
    let mut allocator = BitmapAllocator::new(1, 1, 100);
    let mut device = MemoryDevice::empty(3);
    allocator.allocate(&mut device, &vec![3, 7, 99])?;
    assert!(allocator.is_allocated(&mut device, 3)?);
    assert!(allocator.is_allocated(&mut device, 7)?);
    assert!(allocator.is_allocated(&mut device, 99)?);
    assert!(!allocator.is_allocated(&mut device, 4)?);
    // past the mapped region nothing is allocated
    assert!(!allocator.is_allocated(&mut device, 150)?);
    assert_eq!(allocator.count_allocated(&mut device)?, 3);
    allocator.deallocate(&mut device, &vec![7])?;
    assert!(!allocator.is_allocated(&mut device, 7)?);
    assert_eq!(allocator.count_allocated(&mut device)?, 2);
    assert_eq!(allocator.max_index(), 100);
    Ok(())
}

#[test]
fn bitmap_find_free_starts_after_last_allocation() -> FSResult<()> {
    let mut allocator = BitmapAllocator::new(1, 1, 2048);
    let mut device = MemoryDevice::empty(2);
    let first = allocator.find_free(&mut device, 3)?;
    assert_eq!(first, vec![0, 1, 2]);
    allocator.allocate(&mut device, &first)?;
    let next = allocator.find_free(&mut device, 2)?;
    assert_eq!(next, vec![3, 4]);
    Ok(())
}

#[test]
fn bitmap_index_packing() {
    assert_eq!(BitmapAllocator::get_index(1, 2, 3), (2 + 256) * 8 + 3);
    assert_eq!(BitmapAllocator::unpack_index((2 + 256) * 8 + 3), (1, 2, 3));
    assert_eq!(BitmapAllocator::unpack_index(0), (0, 0, 0));
}

#[test]
fn bitmap_find_free_wraps_around_to_the_start() -> FSResult<()> {
    let mut allocator = BitmapAllocator::new(1, 1, 2048);
    let mut device = MemoryDevice::empty(2);
    allocator.allocate(&mut device, &vec![100])?;
    // from index 96 (the byte of the last allocation) on, then from 0 up to 96
    let free = allocator.find_free(&mut device, 2048)?;
    assert_eq!(free.len(), 2047);
    assert_eq!(free[0], 96);
    assert_eq!(free[4], 101);
    assert_eq!(free[1950], 2047);
    assert_eq!(free[1951], 0);
    assert_eq!(free[2046], 95);
    assert!(!free.contains(&100));
    assert_eq!(allocator.find_free(&mut device, 0)?, Vec::<u32>::new());
    Ok(())
}

#[test]
fn bitmap_is_allocated_past_max_index() -> FSResult<()> {
    let allocator = BitmapAllocator::new(1, 1, 10);
    let mut device = MemoryDevice::empty(2);
    assert!(!allocator.is_allocated(&mut device, 11)?);
    Ok(())
}

#[test]
fn bitmap_deallocate_any_bit_of_the_bitmap() -> FSResult<()> {
    let mut allocator = BitmapAllocator::new(1, 1, 10);
    let mut device = MemoryDevice::empty(2);
    let mut full = [0xFFu8; BLOCK_SIZE];
    full[0] = 0xFF;
    device.write_block(1, &full)?;
    allocator.deallocate(&mut device, &vec![100])?;
    let mut buf = [0u8; BLOCK_SIZE];
    device.read_block(1, &mut buf)?;
    assert_eq!(buf[12], 0b1110_1111);
    assert_eq!(buf[0], 0xFF);
    Ok(())
}
