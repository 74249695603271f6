use myfs::device::BlockDevice;
use myfs::error::FsError;
use myfs::fs::{ListedEntry, Listing, MyFileSystem};
use myfs::inode_table::{read_inode, write_inode_to_disk};
use myfs::layout::{Inode, InodeType, Superblock, BLOCK_SIZE, MAGIC};

fn fresh() -> MyFileSystem {
    let mut fs = MyFileSystem::new(BlockDevice::new());
    fs.format();
    fs
}

fn names(fs: &MyFileSystem, path: &str) -> Vec<String> {
    match fs.list_dir(path).unwrap() {
        Listing::File(name) => vec![name],
        Listing::Directory(lines) => lines.into_iter().map(|l| l.name).collect(),
    }
}

fn line(name: &str, mode: InodeType) -> ListedEntry {
    ListedEntry { name: name.to_string(), mode }
}

fn block(fs: &MyFileSystem, idx: u32) -> [u8; BLOCK_SIZE] {
    let mut buf = [0u8; BLOCK_SIZE];
    fs.device.read_block(idx, &mut buf);
    buf
}

#[test]
fn new_filesystem_starts_at_the_root() {
    let fs = MyFileSystem::new(BlockDevice::new());
    assert_eq!(fs.cwd_ino, 1);
    assert_eq!(fs.cwd_path, "/");
    // nothing was written: the image is still blank
    assert_eq!(fs.device.to_image(), BlockDevice::new().to_image());
}

#[test]
fn format_writes_the_five_blocks() {
    let fs = fresh();
    let sb = Superblock::deserialize(&block(&fs, 0));
    assert_eq!(
        sb,
        Superblock { magic: MAGIC, total_blocks: 1024, inode_count: 128, data_area_start: 10 }
    );
    let inodes = block(&fs, 1);
    assert_eq!(inodes[0], 0b0000_0011);
    assert!(inodes[1..].iter().all(|&b| b == 0));
    let data = block(&fs, 2);
    assert_eq!(data[0], 0xff);
    assert_eq!(data[1], 0b0000_0111);
    assert!(data[2..].iter().all(|&b| b == 0));
    let root = read_inode(&fs.device, 1);
    assert_eq!(root.mode, InodeType::Directory);
    assert_eq!(root.size, 4096);
    let mut blocks = [0u32; 12];
    blocks[0] = 10;
    assert_eq!(root.blocks, blocks);
    let table = block(&fs, 3);
    assert!(table[..128].iter().all(|&b| b == 0));
    assert!(table[256..].iter().all(|&b| b == 0));
    let dir = block(&fs, 10);
    assert_eq!(&dir[..6], &[1, 0, 0, 0, b'.', 0]);
    assert_eq!(&dir[64..71], &[1, 0, 0, 0, b'.', b'.', 0]);
    assert!(dir[128..].iter().all(|&b| b == 0));
    assert_eq!(
        fs.list_dir("/"),
        Ok(Listing::Directory(vec![
            line(".", InodeType::Directory),
            line("..", InodeType::Directory)
        ]))
    );
}

#[test]
fn format_leaves_other_blocks_alone_and_can_be_repeated() {
    let mut image = vec![0xeeu8; 1024 * BLOCK_SIZE];
    image[4 * BLOCK_SIZE] = 0x11;
    let mut fs = MyFileSystem::new(BlockDevice::from_image(&image));
    fs.format();
    assert!(block(&fs, 4)[1..].iter().all(|&b| b == 0xee));
    assert_eq!(block(&fs, 4)[0], 0x11);
    assert!(block(&fs, 11).iter().all(|&b| b == 0xee));
    fs.mkdir("/a").unwrap();
    fs.cd("/a").unwrap();
    let mut again = MyFileSystem::new(BlockDevice::from_image(&image));
    again.format();
    fs.format();
    assert_eq!(fs.cwd_ino, 1);
    assert_eq!(fs.cwd_path, "/");
    for idx in [0u32, 1, 2, 3, 10] {
        assert_eq!(block(&fs, idx), block(&again, idx));
    }
    assert_eq!(names(&fs, "/"), vec![".", ".."]);
}

#[test]
fn make_write_read_remove() {
    let mut fs = fresh();
    assert_eq!(fs.mkdir("/a"), Ok(()));
    assert_eq!(fs.touch("/a/f"), Ok(()));
    assert_eq!(fs.write_file("/a/f", "hello"), Ok(5));
    assert_eq!(fs.cat("/a/f"), Ok("hello".to_string()));
    assert_eq!(fs.rm("/a"), Err(FsError::DirectoryNotEmpty));
    assert_eq!(fs.rm("/a/f"), Ok(()));
    assert_eq!(fs.rm("/a"), Ok(()));
    assert_eq!(names(&fs, "/"), vec![".", ".."]);
    assert_eq!(fs.resolve_path("/a"), Err(FsError::NotFound));
}

#[test]
fn mkdir_twice_is_refused() {
    let mut fs = fresh();
    assert_eq!(fs.mkdir("/a"), Ok(()));
    let ino = fs.resolve_path("/a").unwrap();
    let before = fs.device.to_image();
    assert_eq!(fs.mkdir("/a"), Err(FsError::AlreadyExists));
    assert_eq!(fs.device.to_image(), before);
    assert_eq!(fs.resolve_path("/a"), Ok(ino));
    assert_eq!(
        fs.list_dir("/"),
        Ok(Listing::Directory(vec![
            line(".", InodeType::Directory),
            line("..", InodeType::Directory),
            line("a", InodeType::Directory),
        ]))
    );
    // the second call took no inode: the next one made is the next in order
    assert_eq!(fs.touch("/b"), Ok(()));
    assert_eq!(fs.resolve_path("/b"), Ok(ino + 1));
}

#[test]
fn resolve_walks_from_the_root() {
    let mut fs = fresh();
    fs.mkdir("/a").unwrap();
    fs.mkdir("/a/b").unwrap();
    fs.touch("/a/b/f").unwrap();
    assert_eq!(fs.resolve_path("/"), Ok(1));
    assert_eq!(fs.resolve_path(""), Ok(1));
    assert_eq!(fs.resolve_path("/a"), Ok(2));
    assert_eq!(fs.resolve_path("/a/b"), Ok(3));
    assert_eq!(fs.resolve_path("/a/b/f"), Ok(4));
    assert_eq!(fs.resolve_path("//a///b/"), Ok(3));
    assert_eq!(fs.resolve_path("a/b"), Ok(3));
    assert_eq!(fs.resolve_path("/a/b/.."), Ok(2));
    assert_eq!(fs.resolve_path("/a/./b/../.."), Ok(1));
    assert_eq!(fs.resolve_path("/x"), Err(FsError::NotFound));
    assert_eq!(fs.resolve_path("/a/x/f"), Err(FsError::NotFound));
    // a file has no entries
    assert_eq!(fs.resolve_path("/a/b/f/x"), Err(FsError::NotFound));
}

#[test]
fn mkdir_makes_dot_and_dotdot() {
    let mut fs = fresh();
    fs.mkdir("/a").unwrap();
    fs.mkdir("/a/b").unwrap();
    assert_eq!(
        fs.list_dir("/a/b"),
        Ok(Listing::Directory(vec![
            line(".", InodeType::Directory),
            line("..", InodeType::Directory)
        ]))
    );
    assert_eq!(fs.resolve_path("/a/b/."), Ok(3));
    assert_eq!(fs.resolve_path("/a/b/.."), Ok(2));
    let inode = read_inode(&fs.device, 3);
    assert_eq!(inode.mode, InodeType::Directory);
    assert_eq!(inode.size, 4096);
    assert_eq!(inode.blocks[0], 12);
    assert_eq!(&inode.blocks[1..], &[0u32; 11]);
    // both bitmaps: inodes 0..=3, blocks 0..=12
    assert_eq!(block(&fs, 1)[0], 0b0000_1111);
    assert_eq!(block(&fs, 2)[1], 0b0001_1111);
}

#[test]
fn mkdir_errors() {
    let mut fs = fresh();
    fs.touch("/f").unwrap();
    let before = fs.device.to_image();
    assert_eq!(fs.mkdir("a"), Err(FsError::InvalidPath));
    assert_eq!(fs.mkdir("/x/a"), Err(FsError::NotFound));
    assert_eq!(fs.mkdir("/f/a"), Err(FsError::NotADirectory));
    assert_eq!(fs.mkdir("/f"), Err(FsError::AlreadyExists));
    assert_eq!(fs.mkdir("/."), Err(FsError::AlreadyExists));
    assert_eq!(fs.device.to_image(), before);
}

#[test]
fn touch_makes_an_empty_file() {
    let mut fs = fresh();
    assert_eq!(fs.touch("/f"), Ok(()));
    let inode = read_inode(&fs.device, 2);
    assert_eq!(inode, Inode { mode: InodeType::File, size: 0, blocks: [0u32; 12] });
    assert_eq!(fs.cat("/f"), Ok(String::new()));
    assert_eq!(fs.read_file("/f"), Ok(Vec::new()));
    // no data block was taken
    assert_eq!(block(&fs, 2)[1], 0b0000_0111);
    assert_eq!(
        fs.list_dir("/"),
        Ok(Listing::Directory(vec![
            line(".", InodeType::Directory),
            line("..", InodeType::Directory),
            line("f", InodeType::File),
        ]))
    );
}

#[test]
fn touch_errors() {
    let mut fs = fresh();
    fs.touch("/f").unwrap();
    let before = fs.device.to_image();
    assert_eq!(fs.touch("g"), Err(FsError::InvalidPath));
    assert_eq!(fs.touch("/x/g"), Err(FsError::NotFound));
    assert_eq!(fs.touch("/f/g"), Err(FsError::NotADirectory));
    assert_eq!(fs.device.to_image(), before);
}

#[test]
fn touch_takes_a_name_twice() {
    let mut fs = fresh();
    fs.touch("/f").unwrap();
    fs.touch("/f").unwrap();
    assert_eq!(names(&fs, "/"), vec![".", "..", "f", "f"]);
    // the first entry is the one that the name stands for
    assert_eq!(fs.resolve_path("/f"), Ok(2));
    fs.rm("/f").unwrap();
    assert_eq!(fs.resolve_path("/f"), Ok(3));
}

#[test]
fn write_then_cat_gives_the_content_back() {
    let mut fs = fresh();
    fs.touch("/f").unwrap();
    for content in ["", "x", "hello world", "zwölf Boxkämpfer\njagen Viktor"] {
        assert_eq!(fs.write_file("/f", content), Ok(content.len()));
        assert_eq!(fs.cat("/f"), Ok(content.to_string()));
        assert_eq!(fs.read_file("/f"), Ok(content.as_bytes().to_vec()));
    }
    let exact = "e".repeat(BLOCK_SIZE);
    assert_eq!(fs.write_file("/f", &exact), Ok(BLOCK_SIZE));
    assert_eq!(fs.cat("/f"), Ok(exact));
}

#[test]
fn write_keeps_one_block_and_pads_it_with_zeros() {
    let mut fs = fresh();
    fs.touch("/f").unwrap();
    fs.write_file("/f", "a long first content").unwrap();
    let inode = read_inode(&fs.device, 2);
    assert_eq!(inode.size, 20);
    assert_eq!(inode.blocks[0], 11);
    fs.write_file("/f", "short").unwrap();
    let inode = read_inode(&fs.device, 2);
    assert_eq!(inode.size, 5);
    assert_eq!(inode.blocks[0], 11);
    let data = block(&fs, 11);
    assert_eq!(&data[..5], b"short");
    assert!(data[5..].iter().all(|&b| b == 0));
    assert_eq!(block(&fs, 2)[1], 0b0000_1111);
}

#[test]
fn write_drops_what_does_not_fit() {
    let mut fs = fresh();
    fs.touch("/f").unwrap();
    let mut content = "a".repeat(BLOCK_SIZE);
    content.push_str("tail that is lost");
    assert_eq!(fs.write_file("/f", &content), Ok(BLOCK_SIZE));
    assert_eq!(fs.cat("/f"), Ok("a".repeat(BLOCK_SIZE)));
    assert_eq!(read_inode(&fs.device, 2).size, 4096);
}

#[test]
fn write_that_cuts_a_character_reads_back_lossily() {
    let mut fs = fresh();
    fs.touch("/f").unwrap();
    let mut content = "a".repeat(BLOCK_SIZE - 1);
    content.push('é');
    assert_eq!(fs.write_file("/f", &content), Ok(BLOCK_SIZE));
    let mut bytes = vec![b'a'; BLOCK_SIZE - 1];
    bytes.push(0xc3);
    assert_eq!(fs.read_file("/f"), Ok(bytes));
    let mut text = "a".repeat(BLOCK_SIZE - 1);
    text.push('\u{fffd}');
    assert_eq!(fs.cat("/f"), Ok(text));
}

#[test]
fn write_and_cat_errors() {
    let mut fs = fresh();
    fs.mkdir("/d").unwrap();
    let before = fs.device.to_image();
    assert_eq!(fs.write_file("/x", "c"), Err(FsError::NotFound));
    assert_eq!(fs.write_file("/d", "c"), Err(FsError::NotAFile));
    assert_eq!(fs.write_file("/", "c"), Err(FsError::NotAFile));
    assert_eq!(fs.cat("/x"), Err(FsError::NotFound));
    assert_eq!(fs.cat("/d"), Err(FsError::NotAFile));
    assert_eq!(fs.read_file("/d"), Err(FsError::NotAFile));
    assert_eq!(fs.device.to_image(), before);
}

#[test]
fn rm_then_resolve_finds_nothing() {
    let mut fs = fresh();
    fs.mkdir("/a").unwrap();
    fs.touch("/a/f").unwrap();
    fs.write_file("/a/f", "data").unwrap();
    fs.mkdir("/a/d").unwrap();
    assert_eq!(fs.rm("/a/f"), Ok(()));
    assert_eq!(fs.resolve_path("/a/f"), Err(FsError::NotFound));
    assert_eq!(fs.rm("/a/d"), Ok(()));
    assert_eq!(fs.resolve_path("/a/d"), Err(FsError::NotFound));
    assert_eq!(names(&fs, "/a"), vec![".", ".."]);
}

#[test]
fn rm_frees_the_inode_and_the_block_but_keeps_the_record() {
    let mut fs = fresh();
    fs.touch("/f").unwrap();
    fs.write_file("/f", "data").unwrap();
    let record = read_inode(&fs.device, 2);
    assert_eq!(block(&fs, 1)[0], 0b0000_0111);
    assert_eq!(block(&fs, 2)[1], 0b0000_1111);
    fs.rm("/f").unwrap();
    assert_eq!(block(&fs, 1)[0], 0b0000_0011);
    assert_eq!(block(&fs, 2)[1], 0b0000_0111);
    assert_eq!(read_inode(&fs.device, 2), record);
    assert!(block(&fs, 10)[128..192].iter().all(|&b| b == 0));
    // both are taken again by what is made next
    fs.mkdir("/d").unwrap();
    assert_eq!(fs.resolve_path("/d"), Ok(2));
    assert_eq!(read_inode(&fs.device, 2).blocks[0], 11);
}

#[test]
fn rm_errors() {
    let mut fs = fresh();
    fs.mkdir("/d").unwrap();
    fs.touch("/d/f").unwrap();
    let before = fs.device.to_image();
    assert_eq!(fs.rm("/"), Err(FsError::CannotRemoveRoot));
    assert_eq!(fs.rm("//"), Err(FsError::CannotRemoveRoot));
    assert_eq!(fs.rm("/d/.."), Err(FsError::CannotRemoveRoot));
    assert_eq!(fs.rm("/x"), Err(FsError::NotFound));
    assert_eq!(fs.rm("/d/f/x"), Err(FsError::NotFound));
    assert_eq!(fs.rm("/d"), Err(FsError::DirectoryNotEmpty));
    assert_eq!(fs.device.to_image(), before);
}

#[test]
fn removed_entries_are_reused_in_place() {
    let mut fs = fresh();
    fs.touch("/a").unwrap();
    fs.touch("/b").unwrap();
    fs.touch("/c").unwrap();
    fs.rm("/b").unwrap();
    assert_eq!(names(&fs, "/"), vec![".", "..", "a", "c"]);
    fs.touch("/d").unwrap();
    assert_eq!(names(&fs, "/"), vec![".", "..", "a", "d", "c"]);
    assert_eq!(fs.resolve_path("/d"), Ok(3));
}

#[test]
fn cp_makes_a_copy_with_storage_of_its_own() {
    let mut fs = fresh();
    fs.touch("/a").unwrap();
    fs.write_file("/a", "first words").unwrap();
    assert_eq!(fs.cp("/a", "/b"), Ok(()));
    assert_eq!(fs.cat("/b"), Ok("first words".to_string()));
    let a = fs.resolve_path("/a").unwrap();
    let b = fs.resolve_path("/b").unwrap();
    assert_ne!(a, b);
    assert_ne!(read_inode(&fs.device, a).blocks[0], read_inode(&fs.device, b).blocks[0]);
    fs.write_file("/a", "changed").unwrap();
    assert_eq!(fs.cat("/a"), Ok("changed".to_string()));
    assert_eq!(fs.cat("/b"), Ok("first words".to_string()));
    fs.write_file("/b", "other").unwrap();
    assert_eq!(fs.cat("/a"), Ok("changed".to_string()));
}

#[test]
fn cp_of_a_file_never_written_makes_an_empty_file() {
    let mut fs = fresh();
    fs.touch("/a").unwrap();
    assert_eq!(fs.cp("/a", "/b"), Ok(()));
    assert_eq!(read_inode(&fs.device, 3), Inode { mode: InodeType::File, size: 0, blocks: [0; 12] });
    // a file written with nothing has a block, and so has its copy
    fs.write_file("/a", "").unwrap();
    assert_eq!(fs.cp("/a", "/c"), Ok(()));
    assert_eq!(read_inode(&fs.device, 4).size, 0);
    assert_ne!(read_inode(&fs.device, 4).blocks[0], 0);
}

#[test]
fn cp_errors() {
    let mut fs = fresh();
    fs.mkdir("/d").unwrap();
    fs.touch("/f").unwrap();
    fs.write_file("/f", "x").unwrap();
    let before = fs.device.to_image();
    assert_eq!(fs.cp("/x", "/y"), Err(FsError::NotFound));
    assert_eq!(fs.cp("/d", "/y"), Err(FsError::NotAFile));
    assert_eq!(fs.cp("/f", "/x/y"), Err(FsError::NotFound));
    assert_eq!(fs.cp("/f", "y"), Err(FsError::InvalidPath));
    assert_eq!(fs.device.to_image(), before);
    // the target is made first; where writing to it fails it stays
    assert_eq!(fs.cp("/f", "/d"), Err(FsError::NotAFile));
    assert_eq!(names(&fs, "/"), vec![".", "..", "d", "f", "d"]);
}

#[test]
fn mv_keeps_the_inode_and_the_content() {
    let mut fs = fresh();
    fs.mkdir("/a").unwrap();
    fs.mkdir("/b").unwrap();
    fs.touch("/a/f").unwrap();
    fs.write_file("/a/f", "content").unwrap();
    let ino = fs.resolve_path("/a/f").unwrap();
    let record = read_inode(&fs.device, ino);
    let bitmaps = (block(&fs, 1), block(&fs, 2));
    assert_eq!(fs.mv("/a/f", "/b/g"), Ok(()));
    assert_eq!(fs.resolve_path("/a/f"), Err(FsError::NotFound));
    assert_eq!(fs.resolve_path("/b/g"), Ok(ino));
    assert_eq!(read_inode(&fs.device, ino), record);
    assert_eq!(fs.cat("/b/g"), Ok("content".to_string()));
    assert_eq!((block(&fs, 1), block(&fs, 2)), bitmaps);
    assert_eq!(names(&fs, "/a"), vec![".", ".."]);
    assert_eq!(names(&fs, "/b"), vec![".", "..", "g"]);
}

#[test]
fn mv_of_a_directory_points_dotdot_at_the_new_parent() {
    let mut fs = fresh();
    fs.mkdir("/a").unwrap();
    fs.mkdir("/b").unwrap();
    fs.mkdir("/a/d").unwrap();
    fs.touch("/a/d/f").unwrap();
    let a = fs.resolve_path("/a").unwrap();
    let b = fs.resolve_path("/b").unwrap();
    let d = fs.resolve_path("/a/d").unwrap();
    assert_eq!(fs.resolve_path("/a/d/.."), Ok(a));
    assert_eq!(fs.mv("/a/d", "/b/e"), Ok(()));
    assert_eq!(fs.resolve_path("/b/e"), Ok(d));
    assert_eq!(fs.resolve_path("/b/e/.."), Ok(b));
    assert_eq!(fs.resolve_path("/b/e/."), Ok(d));
    assert_eq!(fs.resolve_path("/b/e/f"), Ok(4 + 1));
    assert_eq!(names(&fs, "/b/e"), vec![".", "..", "f"]);
}

#[test]
fn mv_within_a_directory_renames() {
    let mut fs = fresh();
    fs.touch("/old").unwrap();
    assert_eq!(fs.mv("/old", "/new"), Ok(()));
    assert_eq!(fs.resolve_path("/new"), Ok(2));
    assert_eq!(fs.resolve_path("/old"), Err(FsError::NotFound));
    // the new entry went into the first free slot, the old one was zeroed
    assert_eq!(names(&fs, "/"), vec![".", "..", "new"]);
    assert!(block(&fs, 10)[128..192].iter().all(|&b| b == 0));
}

#[test]
fn mv_errors() {
    let mut fs = fresh();
    fs.touch("/f").unwrap();
    let before = fs.device.to_image();
    assert_eq!(fs.mv("/x", "/y"), Err(FsError::NotFound));
    assert_eq!(fs.mv("/f", "/x/y"), Err(FsError::NotFound));
    assert_eq!(fs.mv("/f", "/f/y"), Err(FsError::NotADirectory));
    assert_eq!(fs.device.to_image(), before);
}

#[test]
fn ls_of_a_file_shows_its_name() {
    let mut fs = fresh();
    fs.mkdir("/d").unwrap();
    fs.touch("/d/file.txt").unwrap();
    assert_eq!(fs.list_dir("/d/file.txt"), Ok(Listing::File("file.txt".to_string())));
    assert_eq!(fs.list_dir("/x"), Err(FsError::NotFound));
}

#[test]
fn ls_shows_entries_in_stored_order_with_their_modes() {
    let mut fs = fresh();
    fs.touch("/z").unwrap();
    fs.mkdir("/a").unwrap();
    fs.touch("/m").unwrap();
    assert_eq!(
        fs.list_dir("/"),
        Ok(Listing::Directory(vec![
            line(".", InodeType::Directory),
            line("..", InodeType::Directory),
            line("z", InodeType::File),
            line("a", InodeType::Directory),
            line("m", InodeType::File),
        ]))
    );
}

#[test]
fn cd_changes_the_session_only() {
    let mut fs = fresh();
    fs.mkdir("/a").unwrap();
    fs.touch("/f").unwrap();
    let before = fs.device.to_image();
    assert_eq!(fs.cd("/a"), Ok(()));
    assert_eq!(fs.cwd_ino, 2);
    assert_eq!(fs.cwd_path, "/a");
    assert_eq!(fs.cd("/f"), Err(FsError::NotADirectory));
    assert_eq!(fs.cd("/x"), Err(FsError::NotFound));
    assert_eq!(fs.cwd_ino, 2);
    assert_eq!(fs.cwd_path, "/a");
    assert_eq!(fs.cd("/"), Ok(()));
    assert_eq!(fs.cwd_ino, 1);
    assert_eq!(fs.cwd_path, "/");
    assert_eq!(fs.device.to_image(), before);
}

#[test]
fn a_full_directory_refuses_and_stays_usable() {
    let mut fs = fresh();
    for i in 0..62 {
        assert_eq!(fs.touch(&format!("/f{}", i)), Ok(()));
    }
    let before = fs.device.to_image();
    assert_eq!(fs.touch("/more"), Err(FsError::DirectoryFull));
    assert_eq!(fs.mkdir("/more"), Err(FsError::DirectoryFull));
    assert_eq!(fs.mv("/f0", "/more"), Err(FsError::DirectoryFull));
    assert_eq!(fs.cp("/f0", "/more"), Err(FsError::DirectoryFull));
    assert_eq!(fs.device.to_image(), before);
    assert_eq!(fs.rm("/f7"), Ok(()));
    assert_eq!(fs.touch("/more"), Ok(()));
    assert_eq!(fs.resolve_path("/more"), Ok(9));
}

#[test]
fn running_out_of_inodes_refuses_and_stays_usable() {
    let mut fs = fresh();
    fs.mkdir("/a").unwrap();
    fs.mkdir("/b").unwrap();
    for i in 0..62 {
        fs.touch(&format!("/a/f{}", i)).unwrap();
    }
    for i in 0..62 {
        fs.touch(&format!("/b/f{}", i)).unwrap();
    }
    assert_eq!(fs.resolve_path("/b/f61"), Ok(127));
    let before = fs.device.to_image();
    assert_eq!(fs.touch("/last"), Err(FsError::ResourceExhausted));
    assert_eq!(fs.mkdir("/last"), Err(FsError::ResourceExhausted));
    assert_eq!(fs.device.to_image(), before);
    assert_eq!(fs.rm("/a/f3"), Ok(()));
    assert_eq!(fs.touch("/last"), Ok(()));
    assert_eq!(fs.resolve_path("/last"), Ok(7));
}

#[test]
fn damaged_pointers_are_reported() {
    let mut fs = fresh();
    fs.touch("/f").unwrap();
    fs.write_file("/f", "x").unwrap();
    let mut inode = read_inode(&fs.device, 2);
    inode.blocks[0] = 5000;
    write_inode_to_disk(&mut fs.device, 2, &inode);
    assert_eq!(fs.cat("/f"), Err(FsError::Corrupted));
    assert_eq!(fs.write_file("/f", "y"), Err(FsError::Corrupted));
    assert_eq!(fs.rm("/f"), Err(FsError::Corrupted));
    assert_eq!(fs.cp("/f", "/g"), Err(FsError::Corrupted));
    inode.blocks[0] = 11;
    inode.size = 5000;
    write_inode_to_disk(&mut fs.device, 2, &inode);
    assert_eq!(fs.cat("/f"), Err(FsError::Corrupted));
    let mut root = read_inode(&fs.device, 1);
    root.blocks[0] = 3;
    write_inode_to_disk(&mut fs.device, 1, &root);
    assert_eq!(fs.resolve_path("/f"), Err(FsError::Corrupted));
    assert_eq!(fs.list_dir("/"), Err(FsError::Corrupted));
    assert_eq!(fs.touch("/g"), Err(FsError::Corrupted));
}

#[test]
fn an_unformatted_image_is_refused_not_written() {
    let mut fs = MyFileSystem::new(BlockDevice::new());
    let before = fs.device.to_image();
    assert_eq!(fs.resolve_path("/"), Ok(1));
    assert_eq!(fs.resolve_path("/a"), Err(FsError::NotFound));
    assert_eq!(fs.mkdir("/a"), Err(FsError::NotADirectory));
    assert_eq!(fs.touch("/a"), Err(FsError::NotADirectory));
    assert_eq!(fs.list_dir("/"), Ok(Listing::File(String::new())));
    assert_eq!(fs.cd("/"), Err(FsError::NotADirectory));
    assert_eq!(fs.device.to_image(), before);
}

#[test]
fn image_survives_a_reload() {
    let mut fs = fresh();
    fs.mkdir("/a").unwrap();
    fs.touch("/a/f").unwrap();
    fs.write_file("/a/f", "kept").unwrap();
    let image = fs.device.to_image();
    let again = MyFileSystem::new(BlockDevice::from_image(&image));
    assert_eq!(again.cat("/a/f"), Ok("kept".to_string()));
    assert_eq!(again.cwd_path, "/");
}
