use myfs::layout::{
    get_le32, make_entry, put_bytes, put_le32, stored_name_len, DirEntry, Inode, InodeType,
    Superblock, BLOCK_SIZE, DIR_ENTRY_SIZE, INODE_SIZE, MAGIC,
};

#[test]
fn le32_is_little_endian() {
    let mut buf = [0u8; 8];
    put_le32(&mut buf, 2, 0x1234_5678);
    assert_eq!(buf, [0, 0, 0x78, 0x56, 0x34, 0x12, 0, 0]);
    assert_eq!(get_le32(&buf, 2), 0x1234_5678);
    assert_eq!(get_le32(&[0xff, 0xff, 0xff, 0xff], 0), u32::MAX);
    assert_eq!(get_le32(&[1, 0, 0, 0], 0), 1);
    assert_eq!(get_le32(&[0, 0, 0, 1], 0), 0x0100_0000);
}

#[test]
fn put_bytes_replaces_a_range_only() {
    let mut buf = [9u8; 6];
    put_bytes(&mut buf, 2, &[1u8, 2, 3]);
    assert_eq!(buf, [9, 9, 1, 2, 3, 9]);
}

#[test]
fn mode_tags() {
    assert_eq!(InodeType::Unused.tag(), 0);
    assert_eq!(InodeType::File.tag(), 1);
    assert_eq!(InodeType::Directory.tag(), 2);
    assert_eq!(InodeType::from_tag(0), InodeType::Unused);
    assert_eq!(InodeType::from_tag(1), InodeType::File);
    assert_eq!(InodeType::from_tag(2), InodeType::Directory);
    assert_eq!(InodeType::from_tag(3), InodeType::Unused);
    assert_eq!(InodeType::from_tag(u32::MAX), InodeType::Unused);
}

#[test]
fn superblock_layout() {
    let sb = Superblock { magic: MAGIC, total_blocks: 1024, inode_count: 128, data_area_start: 10 };
    let buf = sb.serialize();
    assert_eq!(buf.len(), BLOCK_SIZE);
    assert_eq!(
        &buf[..16],
        &[0x78, 0x56, 0x34, 0x12, 0x00, 0x04, 0, 0, 0x80, 0, 0, 0, 0x0a, 0, 0, 0]
    );
    assert!(buf[16..].iter().all(|&b| b == 0));
}

#[test]
fn superblock_round_trip() {
    let sb = Superblock {
        magic: 0xdead_beef,
        total_blocks: u32::MAX,
        inode_count: 0,
        data_area_start: 77,
    };
    assert_eq!(Superblock::deserialize(&sb.serialize()), sb);
}

#[test]
fn inode_layout() {
    let mut blocks = [0u32; 12];
    blocks[0] = 10;
    blocks[11] = 0x0102_0304;
    let inode = Inode { mode: InodeType::Directory, size: 4096, blocks };
    let buf = inode.serialize();
    assert_eq!(buf.len(), INODE_SIZE);
    assert_eq!(&buf[..4], &[2, 0, 0, 0]);
    assert_eq!(&buf[4..8], &[0x00, 0x10, 0, 0]);
    assert_eq!(&buf[8..12], &[10, 0, 0, 0]);
    assert!(buf[12..52].iter().all(|&b| b == 0));
    assert_eq!(&buf[52..56], &[4, 3, 2, 1]);
    assert!(buf[56..].iter().all(|&b| b == 0));
}

#[test]
fn inode_round_trip() {
    let mut blocks = [0u32; 12];
    for (i, b) in blocks.iter_mut().enumerate() {
        *b = 1000 * i as u32 + 7;
    }
    for mode in [InodeType::Unused, InodeType::File, InodeType::Directory] {
        let inode = Inode { mode, size: 123_456, blocks };
        assert_eq!(Inode::deserialize(&inode.serialize()), inode);
    }
}

#[test]
fn inode_with_unknown_mode_reads_as_unused() {
    let mut buf = [0xabu8; INODE_SIZE];
    put_le32(&mut buf, 0, 99);
    put_le32(&mut buf, 4, 5);
    let inode = Inode::deserialize(&buf);
    assert_eq!(inode.mode, InodeType::Unused);
    assert_eq!(inode.size, 5);
    assert_eq!(inode.blocks[0], 0xabab_abab);
}

#[test]
fn entry_layout() {
    let entry = DirEntry { inode_no: 7, name: "hello".to_string() };
    let buf = entry.serialize();
    assert_eq!(buf.len(), DIR_ENTRY_SIZE);
    assert_eq!(&buf[..4], &[7, 0, 0, 0]);
    assert_eq!(&buf[4..9], b"hello");
    assert!(buf[9..].iter().all(|&b| b == 0));
    assert_eq!(make_entry(7, b"hello"), buf);
}

#[test]
fn entry_round_trip() {
    for name in ["", ".", "..", "a", "notes.txt", "naïve-ü"] {
        let entry = DirEntry { inode_no: 42, name: name.to_string() };
        assert_eq!(DirEntry::deserialize(&entry.serialize()), entry);
    }
    let longest = "x".repeat(60);
    let entry = DirEntry { inode_no: u32::MAX, name: longest };
    assert_eq!(DirEntry::deserialize(&entry.serialize()), entry);
}

#[test]
fn entry_name_is_cut_at_sixty_bytes() {
    let entry = DirEntry { inode_no: 1, name: "y".repeat(61) };
    let buf = entry.serialize();
    assert!(buf[4..].iter().all(|&b| b == b'y'));
    let back = DirEntry::deserialize(&buf);
    assert_eq!(back.inode_no, 1);
    assert_eq!(back.name, "y".repeat(60));
}

#[test]
fn entry_name_ends_at_first_zero_byte() {
    let mut buf = [0u8; DIR_ENTRY_SIZE];
    put_le32(&mut buf, 0, 3);
    buf[4] = b'a';
    buf[5] = b'b';
    buf[6] = 0;
    buf[7] = b'c';
    assert_eq!(stored_name_len(&buf), 2);
    assert_eq!(DirEntry::deserialize(&buf), DirEntry { inode_no: 3, name: "ab".to_string() });
    let full = [b'z'; DIR_ENTRY_SIZE];
    assert_eq!(stored_name_len(&full), 60);
}

#[test]
fn entry_name_that_is_not_utf8_is_decoded_lossily() {
    let mut buf = [0u8; DIR_ENTRY_SIZE];
    put_le32(&mut buf, 0, 3);
    buf[4] = b'a';
    buf[5] = 0xff;
    buf[6] = b'b';
    let entry = DirEntry::deserialize(&buf);
    assert_eq!(entry.name, "a\u{fffd}b");
    assert_ne!(entry.name.as_bytes(), &buf[4..7]);
}

#[test]
fn zeroed_entry_is_free() {
    let entry = DirEntry::deserialize(&[0u8; DIR_ENTRY_SIZE]);
    assert_eq!(entry, DirEntry { inode_no: 0, name: String::new() });
}
