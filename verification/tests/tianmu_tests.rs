use image_maker::entry::{slice_to_string, DirEntry};
use image_maker::require::{MakeError, MakeSystem};
use image_maker::tianmu::TianMu;

fn u64_at(img: &[u8], pos: usize) -> u64 {
    let mut b = [0u8; 8];
    b.copy_from_slice(&img[pos..pos + 8]);
    u64::from_le_bytes(b)
}

fn fresh(tm: &TianMu) -> Vec<u8> {
    let mut img = Vec::new();
    assert_eq!(tm.init_block_map(&mut img), Ok(()));
    assert_eq!(tm.make_super_block(&mut img), Ok(()));
    img
}

#[test]
fn new_lays_out_the_image() {
    let tm = TianMu::new(4096 * 4, 1024 * 1024 * 32);
    assert_eq!(tm.block_size(), 16384);
    assert_eq!(tm.block_num(), 2048);
    assert_eq!(tm.block_map_addr(), 1024);
    assert_eq!(tm.root_offset(), 32768);
    let tm = TianMu::new(64, 4096);
    assert_eq!(tm.block_num(), 64);
    assert_eq!(tm.root_offset(), 1536);
    let tm = TianMu::new(100, 250);
    assert_eq!(tm.block_num(), 2);
    assert_eq!(tm.root_offset(), 1100);
}

#[test]
fn init_block_map_reserves_the_leading_blocks() {
    let tm = TianMu::new(64, 4096);
    let mut img = vec![5u8; 10];
    assert_eq!(tm.init_block_map(&mut img), Ok(()));
    assert_eq!(img.len(), 4096);
    for i in 0..25 {
        assert_eq!(u64_at(&img, 1024 + 8 * i), u64::MAX);
    }
    for i in 25..64 {
        assert_eq!(u64_at(&img, 1024 + 8 * i), 0);
    }
    assert!(img[..1024].iter().all(|b| *b == 0));
    assert!(img[1536..].iter().all(|b| *b == 0));
}

#[test]
fn init_block_map_needs_eight_byte_blocks() {
    let tm = TianMu::new(7, 700);
    let mut img = Vec::new();
    assert_eq!(tm.init_block_map(&mut img), Err(MakeError::Overflow));
}

#[test]
fn make_super_block_writes_setting_and_magic() {
    let tm = TianMu::new(64, 4096);
    let mut img = Vec::new();
    assert_eq!(tm.make_super_block(&mut img), Ok(()));
    assert_eq!(img.len(), 1024);
    assert_eq!(u64_at(&img, 0), 64);
    assert_eq!(u64_at(&img, 8), 64);
    assert_eq!(u64_at(&img, 16), 1024);
    assert_eq!(u64_at(&img, 24), 1536);
    assert!(img[32..512].iter().all(|b| *b == 0));
    assert_eq!(u64_at(&img, 512), 0x2333);
    assert!(img[520..].iter().all(|b| *b == 0));
}

#[test]
fn add_file_stores_contents_and_item() {
    let tm = TianMu::new(64, 4096);
    let mut img = fresh(&tm);
    let content: Vec<u8> = (0..130u32).map(|i| i as u8).collect();
    assert_eq!(tm.add_file(&"src".to_string(), &"src/long.bin".to_string(), &content, &mut img), Ok(()));
    // Three blocks 25, 26, 27 chained in the map.
    assert_eq!(&img[25 * 64..26 * 64], &content[0..64]);
    assert_eq!(&img[26 * 64..27 * 64], &content[64..128]);
    assert_eq!(&img[27 * 64..27 * 64 + 2], &content[128..130]);
    assert_eq!(u64_at(&img, 1024 + 8 * 25), 26);
    assert_eq!(u64_at(&img, 1024 + 8 * 26), 27);
    assert_eq!(u64_at(&img, 1024 + 8 * 27), u64::MAX);
    assert_eq!(&img[1536..1544], b"long.bin");
    assert_eq!(img[1551], 1);
    assert_eq!(u64_at(&img, 1552), 25);
    assert_eq!(u64_at(&img, 1560), 130);
}

#[test]
fn add_file_cuts_long_names() {
    let tm = TianMu::new(64, 4096);
    let mut img = fresh(&tm);
    let path = "r/abcdefghijklmnopqrstuvwxyz".to_string();
    assert_eq!(tm.add_file(&"r".to_string(), &path, &vec![1u8], &mut img), Ok(()));
    assert_eq!(&img[1536..1551], b"abcdefghijklmno");
}

#[test]
fn add_file_errors() {
    let tm = TianMu::new(64, 4096);
    let mut img = fresh(&tm);
    assert_eq!(tm.add_file(&"src".to_string(), &"src/e".to_string(), &Vec::new(), &mut img), Err(MakeError::EmptyFile));
    let mut img = fresh(&tm);
    assert_eq!(
        tm.add_file(&"src".to_string(), &"other/a".to_string(), &vec![1u8], &mut img),
        Err(MakeError::RootNotInPath)
    );
    let mut img = fresh(&tm);
    assert_eq!(
        tm.add_file(&"src".to_string(), &"src/nodir/a".to_string(), &vec![1u8], &mut img),
        Err(MakeError::DirNotFound)
    );
    let mut img = Vec::new();
    assert_eq!(tm.add_file(&"src".to_string(), &"src/a".to_string(), &vec![1u8], &mut img), Err(MakeError::ReadPastEnd));
    // Forty blocks are more than the 39 free ones.
    let mut img = fresh(&tm);
    assert_eq!(
        tm.add_file(&"src".to_string(), &"src/big".to_string(), &vec![1u8; 64 * 40], &mut img),
        Err(MakeError::NoFreeBlock)
    );
}

#[test]
fn add_directory_then_file_inside() {
    let tm = TianMu::new(64, 4096);
    let mut img = fresh(&tm);
    assert_eq!(tm.add_directory(&"src".to_string(), &"src/sub".to_string(), &mut img), Ok(()));
    assert_eq!(&img[1536..1539], b"sub");
    assert_eq!(img[1551], 2);
    assert_eq!(u64_at(&img, 1552), 25);
    assert_eq!(u64_at(&img, 1560), 0);
    assert_eq!(u64_at(&img, 1024 + 8 * 25), u64::MAX);
    assert_eq!(tm.add_file(&"src".to_string(), &"src/sub/f".to_string(), &vec![42u8; 3], &mut img), Ok(()));
    assert_eq!(&img[25 * 64..25 * 64 + 1], b"f");
    assert_eq!(u64_at(&img, 25 * 64 + 16), 26);
    assert_eq!(&img[26 * 64..26 * 64 + 3], &[42u8, 42, 42]);
}

#[test]
fn add_directory_errors() {
    let tm = TianMu::new(64, 4096);
    let mut img = fresh(&tm);
    assert_eq!(
        tm.add_directory(&"src".to_string(), &"src/abcdefghijklmnop".to_string(), &mut img),
        Err(MakeError::NameTooLong)
    );
    let mut img = fresh(&tm);
    assert_eq!(tm.add_directory(&"src".to_string(), &"x/y".to_string(), &mut img), Err(MakeError::RootNotInPath));
    let mut img = fresh(&tm);
    assert_eq!(
        tm.add_directory(&"src".to_string(), &"src/a/b".to_string(), &mut img),
        Err(MakeError::DirNotFound)
    );
}

#[test]
fn lookup_cut_at_a_character_boundary() {
    let tm = TianMu::new(64, 4096);
    let mut img = fresh(&tm);
    // The directory part has 16 bytes and its 16th byte continues `é`.
    let path = "src/abcdefghijklmné/f".to_string();
    assert_eq!(tm.add_file(&"src".to_string(), &path, &vec![1u8], &mut img), Err(MakeError::NameNotCharBoundary));
}

#[test]
fn a_full_directory_grows() {
    let tm = TianMu::new(64, 8192);
    let mut img = fresh(&tm);
    // Two items fit a 64-byte block; the third makes the root grow.
    assert_eq!(tm.add_directory(&"r".to_string(), &"r/a".to_string(), &mut img), Ok(()));
    assert_eq!(tm.add_directory(&"r".to_string(), &"r/b".to_string(), &mut img), Ok(()));
    assert_eq!(&img[2048..2049], b"a");
    assert_eq!(&img[2080..2081], b"b");
    assert_eq!(tm.add_directory(&"r".to_string(), &"r/c".to_string(), &mut img), Ok(()));
    // `c` took block 35; the root's chain now goes on to block 36, and the
    // item is written where reading resumes after the new map entry.
    assert_eq!(u64_at(&img, 1024 + 8 * 32), 36);
    assert_eq!(u64_at(&img, 1024 + 8 * 36), u64::MAX);
    assert_eq!(&img[1320..1321], b"c");
    assert_eq!(u64_at(&img, 1320 + 16), 35);
}

#[test]
fn slice_to_string_stops_at_zero() {
    assert_eq!(slice_to_string(b"abc\0def"), "abc");
    assert_eq!(slice_to_string(b""), "");
    assert_eq!(slice_to_string(&[0xe9, b'x']), "\u{e9}x");
}

#[test]
fn dir_entry_round_trip() {
    let e = DirEntry { name: *b"abcdefghijklmno", attr: 2, start_block: 0x0102030405060708, length: 9 };
    let b = e.encode();
    assert_eq!(b.len(), 32);
    assert_eq!(b[15], 2);
    assert_eq!(b[16], 8);
    let d = DirEntry::decode(&b);
    assert_eq!(d.name, e.name);
    assert_eq!(d.attr, 2);
    assert_eq!(d.start_block, 0x0102030405060708);
    assert_eq!(d.length, 9);
    assert!(!d.empty());
    assert!(DirEntry::decode(&[0u8; 32]).empty());
}

#[test]
fn tianmu_types_have_the_sizes_the_layout_assumes() {
    assert_eq!(std::mem::size_of::<tianmu_fs::SuperBlock>(), 48);
    assert_eq!(std::mem::size_of::<tianmu_fs::DirItem>(), 32);
}

fn set_u64(img: &mut [u8], pos: usize, v: u64) {
    img[pos..pos + 8].copy_from_slice(&v.to_le_bytes());
}

#[test]
fn a_looping_directory_chain_is_reported() {
    let tm = TianMu::new(64, 4096);
    let mut img = fresh(&tm);
    // The root's entry (block 24, byte 1216) names block 152, whose entry the
    // reader looks for at byte 152 * 8 = 1216 again.
    set_u64(&mut img, 1216, 152);
    assert_eq!(tm.add_directory(&"r".to_string(), &"r/a".to_string(), &mut img), Err(MakeError::ChainLoops));
}

#[test]
fn a_looping_walk_to_the_end_is_reported() {
    let tm = TianMu::new(64, 4096);
    let mut img = fresh(&tm);
    assert_eq!(tm.add_directory(&"r".to_string(), &"r/a".to_string(), &mut img), Ok(()));
    assert_eq!(tm.add_directory(&"r".to_string(), &"r/b".to_string(), &mut img), Ok(()));
    // The full root's entry names the root itself: the walk that grows the
    // directory never reaches `END`.
    set_u64(&mut img, 1216, 24);
    assert_eq!(tm.add_directory(&"r".to_string(), &"r/c".to_string(), &mut img), Err(MakeError::ChainLoops));
}

#[test]
fn growing_a_directory_whose_entry_is_free_fails() {
    let tm = TianMu::new(64, 4096);
    let mut img = fresh(&tm);
    assert_eq!(tm.add_file(&"r".to_string(), &"r/f".to_string(), &vec![1u8], &mut img), Ok(()));
    assert_eq!(tm.add_directory(&"r".to_string(), &"r/sub".to_string(), &mut img), Ok(()));
    assert_eq!(tm.add_directory(&"r".to_string(), &"r/sub/x".to_string(), &mut img), Ok(()));
    assert_eq!(tm.add_directory(&"r".to_string(), &"r/sub/y".to_string(), &mut img), Ok(()));
    assert_eq!(u64_at(&img, 1024 + 8 * 26), u64::MAX);
    // Free block 25 (the file's) and mark the full directory `sub` (block 26)
    // as free in the map: the new item takes block 25, and growing `sub`
    // finds its own entry free.
    set_u64(&mut img, 1024 + 8 * 25, 0);
    set_u64(&mut img, 1024 + 8 * 26, 0);
    assert_eq!(
        tm.add_directory(&"r".to_string(), &"r/sub/z".to_string(), &mut img),
        Err(MakeError::FreeChainEntry)
    );
}

#[test]
fn no_free_slot_after_growing_fails() {
    let tm = TianMu::new(64, 8192);
    let mut img = fresh(&tm);
    assert_eq!(tm.add_directory(&"r".to_string(), &"r/a".to_string(), &mut img), Ok(()));
    assert_eq!(tm.add_directory(&"r".to_string(), &"r/b".to_string(), &mut img), Ok(()));
    // After growing, slots are read from byte 1320 on; their attribute bytes
    // are the top bytes of the entries of blocks 38 and 42.
    set_u64(&mut img, 1024 + 8 * 38, u64::MAX);
    set_u64(&mut img, 1024 + 8 * 42, u64::MAX);
    assert_eq!(tm.add_directory(&"r".to_string(), &"r/c".to_string(), &mut img), Err(MakeError::DirFull));
}

#[test]
fn an_item_in_a_later_block_of_a_directory_is_found() {
    let tm = TianMu::new(64, 8192);
    let mut img = fresh(&tm);
    assert_eq!(tm.add_directory(&"r".to_string(), &"r/a".to_string(), &mut img), Ok(()));
    assert_eq!(tm.add_directory(&"r".to_string(), &"r/b".to_string(), &mut img), Ok(()));
    assert_eq!(tm.add_directory(&"r".to_string(), &"r/c".to_string(), &mut img), Ok(()));
    // The root's chain is now blocks 32 and 36; block 32 is full, so `d`
    // goes into the first slot of block 36.
    assert_eq!(tm.add_directory(&"r".to_string(), &"r/d".to_string(), &mut img), Ok(()));
    assert_eq!(&img[36 * 64..36 * 64 + 1], b"d");
    // The item of `c` lies over the map entries of blocks 37 to 40, so
    // blocks 37 to 39 read as taken and `d` gets block 40.
    assert_eq!(u64_at(&img, 36 * 64 + 16), 40);
    // Looking `d` up finds it in block 36: the file's item goes into block
    // 40 and its contents into block 41.
    assert_eq!(tm.add_file(&"r".to_string(), &"r/d/f".to_string(), &vec![7u8], &mut img), Ok(()));
    assert_eq!(&img[40 * 64..40 * 64 + 1], b"f");
    assert_eq!(u64_at(&img, 40 * 64 + 16), 41);
    assert_eq!(img[41 * 64], 7);
}

#[test]
fn init_block_map_twice_is_init_once() {
    let tm = TianMu::new(64, 4096);
    let mut img = vec![9u8; 5000];
    assert_eq!(tm.init_block_map(&mut img), Ok(()));
    let once = img.clone();
    assert_eq!(tm.init_block_map(&mut img), Ok(()));
    assert_eq!(img, once);
    assert_eq!(img.len(), 5000);
    assert!(img[4096..].iter().all(|b| *b == 9));
}
