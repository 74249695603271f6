use myfs::allocator::{
    alloc_data_block, alloc_inode, allocate_bit, free_data_block, free_inode, next_free_block,
    next_free_inode, set_bit,
};
use myfs::bitmap::{find_free, get_bit, put_bit, BITS_PER_BLOCK};
use myfs::device::BlockDevice;
use myfs::directory::{
    add_dir_entry, clear_entry, count_live, entry_ino, entry_name_is, find_entry,
    find_free_slot, find_in_dir, load_dir, put_entry, remove_dir_entry, ENTRIES_PER_BLOCK,
};
use myfs::error::FsError;
use myfs::fs::MyFileSystem;
use myfs::inode_table::{
    inode_location, is_valid_ino, is_valid_ptr, read_inode, write_inode_to_disk,
};
use myfs::layout::{Inode, InodeType, BLOCK_SIZE};

fn formatted() -> BlockDevice {
    let mut fs = MyFileSystem::new(BlockDevice::new());
    fs.format();
    fs.device
}

#[test]
fn new_device_is_zeroed() {
    let dev = BlockDevice::new();
    let mut buf = [1u8; BLOCK_SIZE];
    dev.read_block(0, &mut buf);
    assert!(buf.iter().all(|&b| b == 0));
    dev.read_block(1023, &mut buf);
    assert!(buf.iter().all(|&b| b == 0));
    assert_eq!(dev.to_image().len(), 1024 * BLOCK_SIZE);
}

#[test]
fn write_block_changes_one_block() {
    let mut dev = BlockDevice::new();
    let block = [7u8; BLOCK_SIZE];
    dev.write_block(5, &block);
    let mut buf = [0u8; BLOCK_SIZE];
    dev.read_block(5, &mut buf);
    assert_eq!(buf, block);
    dev.read_block(4, &mut buf);
    assert!(buf.iter().all(|&b| b == 0));
    dev.read_block(6, &mut buf);
    assert!(buf.iter().all(|&b| b == 0));
}

#[test]
fn image_round_trip() {
    let mut bytes = vec![0u8; 3 * BLOCK_SIZE + 10];
    bytes[0] = 1;
    bytes[BLOCK_SIZE] = 2;
    bytes[3 * BLOCK_SIZE + 9] = 3;
    let dev = BlockDevice::from_image(&bytes);
    let mut buf = [0u8; BLOCK_SIZE];
    dev.read_block(0, &mut buf);
    assert_eq!(buf[0], 1);
    dev.read_block(1, &mut buf);
    assert_eq!(buf[0], 2);
    dev.read_block(3, &mut buf);
    assert_eq!(buf[9], 3);
    assert!(buf[10..].iter().all(|&b| b == 0));
    let image = dev.to_image();
    assert_eq!(image.len(), 1024 * BLOCK_SIZE);
    assert_eq!(&image[..bytes.len()], &bytes[..]);
    assert!(image[bytes.len()..].iter().all(|&b| b == 0));
    let again = BlockDevice::from_image(&image);
    assert_eq!(again.to_image(), image);
}

#[test]
fn image_longer_than_the_device_is_cut() {
    let bytes = vec![5u8; 1024 * BLOCK_SIZE + 100];
    let dev = BlockDevice::from_image(&bytes);
    assert_eq!(dev.to_image(), vec![5u8; 1024 * BLOCK_SIZE]);
}

#[test]
fn bits_are_counted_from_the_low_end() {
    let mut bitmap = [0u8; BLOCK_SIZE];
    put_bit(&mut bitmap, 0, true);
    assert_eq!(bitmap[0], 0b0000_0001);
    put_bit(&mut bitmap, 7, true);
    assert_eq!(bitmap[0], 0b1000_0001);
    put_bit(&mut bitmap, 10, true);
    assert_eq!(bitmap[1], 0b0000_0100);
    assert!(get_bit(&bitmap, 0));
    assert!(!get_bit(&bitmap, 1));
    assert!(get_bit(&bitmap, 7));
    assert!(get_bit(&bitmap, 10));
    put_bit(&mut bitmap, 7, false);
    assert_eq!(bitmap[0], 0b0000_0001);
    put_bit(&mut bitmap, BITS_PER_BLOCK - 1, true);
    assert_eq!(bitmap[BLOCK_SIZE - 1], 0b1000_0000);
}

#[test]
fn find_free_takes_the_lowest_clear_bit() {
    let mut bitmap = [0u8; BLOCK_SIZE];
    assert_eq!(find_free(&bitmap), Some(0));
    bitmap[0] = 0xff;
    bitmap[1] = 0b0000_0111;
    assert_eq!(find_free(&bitmap), Some(11));
    bitmap[1] = 0b1111_1011;
    assert_eq!(find_free(&bitmap), Some(10));
    let full = [0xffu8; BLOCK_SIZE];
    assert_eq!(find_free(&full), None);
    let mut last = [0xffu8; BLOCK_SIZE];
    last[BLOCK_SIZE - 1] = 0x7f;
    assert_eq!(find_free(&last), Some(BITS_PER_BLOCK - 1));
}

#[test]
fn freed_bit_is_reused_before_any_higher_one() {
    let mut dev = BlockDevice::new();
    let mut taken = Vec::new();
    for _ in 0..20 {
        taken.push(allocate_bit(&mut dev, 1).unwrap());
    }
    assert_eq!(taken, (0..20).collect::<Vec<u32>>());
    set_bit(&mut dev, 1, 7, false);
    assert_eq!(allocate_bit(&mut dev, 1), Some(7));
    assert_eq!(allocate_bit(&mut dev, 1), Some(20));
    set_bit(&mut dev, 1, 13, false);
    set_bit(&mut dev, 1, 3, false);
    assert_eq!(allocate_bit(&mut dev, 1), Some(3));
    assert_eq!(allocate_bit(&mut dev, 1), Some(13));
    assert_eq!(allocate_bit(&mut dev, 1), Some(21));
}

#[test]
fn allocate_bit_on_a_full_bitmap_takes_nothing() {
    let mut dev = BlockDevice::new();
    dev.write_block(2, &[0xffu8; BLOCK_SIZE]);
    assert_eq!(allocate_bit(&mut dev, 2), None);
    let mut buf = [0u8; BLOCK_SIZE];
    dev.read_block(2, &mut buf);
    assert_eq!(buf, [0xffu8; BLOCK_SIZE]);
}

#[test]
fn inodes_are_allocated_in_order_and_reused() {
    let mut dev = formatted();
    assert_eq!(next_free_inode(&dev), Ok(2));
    assert_eq!(alloc_inode(&mut dev), Ok(2));
    assert_eq!(alloc_inode(&mut dev), Ok(3));
    assert_eq!(alloc_inode(&mut dev), Ok(4));
    free_inode(&mut dev, 3);
    assert_eq!(next_free_inode(&dev), Ok(3));
    assert_eq!(alloc_inode(&mut dev), Ok(3));
    assert_eq!(alloc_inode(&mut dev), Ok(5));
}

#[test]
fn inodes_run_out_at_the_end_of_the_table() {
    let mut dev = formatted();
    for expected in 2..128 {
        assert_eq!(alloc_inode(&mut dev), Ok(expected));
    }
    let before = dev.to_image();
    assert_eq!(alloc_inode(&mut dev), Err(FsError::ResourceExhausted));
    assert_eq!(dev.to_image(), before);
    free_inode(&mut dev, 100);
    assert_eq!(alloc_inode(&mut dev), Ok(100));
}

#[test]
fn data_blocks_run_out_at_the_end_of_the_image() {
    let mut dev = formatted();
    assert_eq!(next_free_block(&dev), Ok(11));
    for expected in 11..1024 {
        assert_eq!(alloc_data_block(&mut dev), Ok(expected));
    }
    assert_eq!(alloc_data_block(&mut dev), Err(FsError::ResourceExhausted));
    free_data_block(&mut dev, 500);
    assert_eq!(alloc_data_block(&mut dev), Ok(500));
}

#[test]
fn reserved_resources_marked_free_are_not_handed_out() {
    let mut dev = BlockDevice::new();
    assert_eq!(alloc_inode(&mut dev), Err(FsError::Corrupted));
    assert_eq!(alloc_data_block(&mut dev), Err(FsError::Corrupted));
    assert_eq!(dev.to_image(), BlockDevice::new().to_image());
}

#[test]
fn inode_records_are_packed_thirty_two_to_a_block() {
    assert_eq!(inode_location(1), (3, 128));
    assert_eq!(inode_location(31), (3, 3968));
    assert_eq!(inode_location(32), (4, 0));
    assert_eq!(inode_location(33), (4, 128));
    assert_eq!(inode_location(127), (6, 3968));
    assert!(!is_valid_ino(0));
    assert!(is_valid_ino(1));
    assert!(is_valid_ino(127));
    assert!(!is_valid_ino(128));
    assert!(!is_valid_ptr(0));
    assert!(!is_valid_ptr(9));
    assert!(is_valid_ptr(10));
    assert!(is_valid_ptr(1023));
    assert!(!is_valid_ptr(1024));
}

#[test]
fn writing_a_record_keeps_its_neighbours() {
    let mut dev = formatted();
    let root = read_inode(&dev, 1);
    assert_eq!(root.mode, InodeType::Directory);
    assert_eq!(root.size, 4096);
    assert_eq!(root.blocks[0], 10);
    let mut blocks = [0u32; 12];
    blocks[0] = 77;
    let inode = Inode { mode: InodeType::File, size: 9, blocks };
    write_inode_to_disk(&mut dev, 2, &inode);
    assert_eq!(read_inode(&dev, 2), inode);
    assert_eq!(read_inode(&dev, 1), root);
    assert_eq!(read_inode(&dev, 3).mode, InodeType::Unused);
    let mut raw = [0u8; BLOCK_SIZE];
    dev.read_block(3, &mut raw);
    assert_eq!(&raw[256..260], &[1, 0, 0, 0]);
    assert_eq!(&raw[260..264], &[9, 0, 0, 0]);
    assert_eq!(&raw[264..268], &[77, 0, 0, 0]);
}

#[test]
fn slots_of_a_directory_block() {
    let mut block = [0u8; BLOCK_SIZE];
    assert_eq!(find_free_slot(&block), Some(0));
    assert_eq!(count_live(&block), 0);
    put_entry(&mut block, 0, 5, b"a");
    put_entry(&mut block, 1, 6, b"bb");
    put_entry(&mut block, 3, 7, b"a");
    assert_eq!(&block[64..68], &[6, 0, 0, 0]);
    assert_eq!(&block[68..70], b"bb");
    assert_eq!(entry_ino(&block, 0), 5);
    assert_eq!(entry_ino(&block, 2), 0);
    assert!(entry_name_is(&block, 1, b"bb"));
    assert!(!entry_name_is(&block, 1, b"b"));
    assert!(!entry_name_is(&block, 1, b"bbb"));
    assert_eq!(find_entry(&block, b"a"), Some(0));
    assert_eq!(find_entry(&block, b"bb"), Some(1));
    assert_eq!(find_entry(&block, b"c"), None);
    assert_eq!(find_free_slot(&block), Some(2));
    assert_eq!(count_live(&block), 3);
    clear_entry(&mut block, 0);
    assert!(block[..64].iter().all(|&b| b == 0));
    assert_eq!(find_entry(&block, b"a"), Some(3));
    assert_eq!(find_free_slot(&block), Some(0));
    assert_eq!(count_live(&block), 2);
}

#[test]
fn a_free_slot_is_not_found_by_its_old_name() {
    let mut block = [0u8; BLOCK_SIZE];
    put_entry(&mut block, 0, 0, b"ghost");
    assert_eq!(find_entry(&block, b"ghost"), None);
    assert_eq!(find_free_slot(&block), Some(0));
}

#[test]
fn names_longer_than_an_entry_are_never_found() {
    let mut block = [0u8; BLOCK_SIZE];
    let long = [b'n'; 61];
    put_entry(&mut block, 0, 9, &long);
    assert_eq!(find_entry(&block, &long), None);
    assert_eq!(find_entry(&block, &long[..60]), Some(0));
}

#[test]
fn directory_manager_on_the_root() {
    let mut dev = formatted();
    let (block_no, block) = load_dir(&dev, 1).unwrap();
    assert_eq!(block_no, 10);
    assert_eq!(count_live(&block), 2);
    assert_eq!(find_in_dir(&dev, 1, b"."), Ok(1));
    assert_eq!(find_in_dir(&dev, 1, b".."), Ok(1));
    assert_eq!(find_in_dir(&dev, 1, b"x"), Err(FsError::NotFound));
    assert_eq!(add_dir_entry(&mut dev, 1, 9, b"x"), Ok(()));
    assert_eq!(add_dir_entry(&mut dev, 1, 8, b"y"), Ok(()));
    assert_eq!(find_in_dir(&dev, 1, b"x"), Ok(9));
    assert_eq!(find_in_dir(&dev, 1, b"y"), Ok(8));
    remove_dir_entry(&mut dev, 1, b"x");
    assert_eq!(find_in_dir(&dev, 1, b"x"), Err(FsError::NotFound));
    // the slot that was zeroed is the next one filled
    assert_eq!(add_dir_entry(&mut dev, 1, 7, b"z"), Ok(()));
    let (_, block) = load_dir(&dev, 1).unwrap();
    assert_eq!(find_entry(&block, b"z"), Some(2));
    assert_eq!(find_entry(&block, b"y"), Some(3));
    // removing what is not there changes nothing
    let before = dev.to_image();
    remove_dir_entry(&mut dev, 1, b"nothing");
    assert_eq!(dev.to_image(), before);
}

#[test]
fn directory_manager_refuses_what_is_no_directory() {
    let mut dev = formatted();
    let file = Inode { mode: InodeType::File, size: 0, blocks: [0u32; 12] };
    write_inode_to_disk(&mut dev, 2, &file);
    assert_eq!(load_dir(&dev, 2).err(), Some(FsError::NotADirectory));
    assert_eq!(find_in_dir(&dev, 2, b"x"), Err(FsError::NotFound));
    assert_eq!(add_dir_entry(&mut dev, 2, 3, b"x"), Err(FsError::NotADirectory));
    assert_eq!(load_dir(&dev, 0).err(), Some(FsError::Corrupted));
    assert_eq!(load_dir(&dev, 128).err(), Some(FsError::Corrupted));
    assert_eq!(find_in_dir(&dev, 4000, b"x"), Err(FsError::Corrupted));
    let mut blocks = [0u32; 12];
    blocks[0] = 5;
    let bad = Inode { mode: InodeType::Directory, size: 4096, blocks };
    write_inode_to_disk(&mut dev, 3, &bad);
    assert_eq!(load_dir(&dev, 3).err(), Some(FsError::Corrupted));
}

#[test]
fn a_full_directory_takes_no_more_entries() {
    let mut dev = formatted();
    for i in 2..ENTRIES_PER_BLOCK as u32 {
        assert_eq!(add_dir_entry(&mut dev, 1, i, format!("e{}", i).as_bytes()), Ok(()));
    }
    let before = dev.to_image();
    assert_eq!(add_dir_entry(&mut dev, 1, 99, b"more"), Err(FsError::DirectoryFull));
    assert_eq!(dev.to_image(), before);
}
