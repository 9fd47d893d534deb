use image_maker::maker::{Maker, SourceDir, SourceFile};
use image_maker::require::MakeError;
use image_maker::tianmu::TianMu;

const SIZE: usize = 1024 * 1024 * 32;

fn u64_at(img: &[u8], pos: usize) -> u64 {
    let mut b = [0u8; 8];
    b.copy_from_slice(&img[pos..pos + 8]);
    u64::from_le_bytes(b)
}

fn empty_tree(path: &str) -> SourceDir {
    SourceDir { path: path.to_string(), files: Vec::new(), dirs: Vec::new() }
}

#[test]
fn main_it_works() {
    let format = TianMu::new(4096 * 4, SIZE);
    let mut mk = Maker::new(String::from("./"), String::from("img"), format, Vec::new());
    assert_eq!(mk.make(&empty_tree("./")), Ok(()));
    let image = mk.image;
    let format = TianMu::new(4096 * 4, SIZE);
    let mk = Maker::read(String::from("./"), String::from("img"), format, image);
    let sp = mk.print_super_block().unwrap();
    assert_eq!(sp.bytes_per_block, 16384);
    assert_eq!(sp.block_num, 2048);
    assert_eq!(sp.block_map_offset, 1024);
    assert_eq!(sp.root_table_offset, 32768);
    assert_eq!(sp.jump1, 0);
    assert_eq!(sp.jump2, 0);
    assert_eq!(sp.jump3, 0);
    assert_eq!(sp.oem, [0u8; 8]);
    assert_eq!(u64_at(&mk.image, 512), 0x2333);
}

#[test]
fn print_super_block_of_empty_image_fails() {
    let mk = Maker::read(String::from("./"), String::from("img"), TianMu::new(64, 4096), Vec::new());
    assert!(matches!(mk.print_super_block(), Err(MakeError::ReadPastEnd)));
}

#[test]
fn print_super_block_of_short_image_reads_zeros() {
    let mut image = vec![0u8; 10];
    image[0] = 7;
    image[9] = 1;
    let mk = Maker::read(String::from("./"), String::from("img"), TianMu::new(64, 4096), image);
    let sp = mk.print_super_block().unwrap();
    assert_eq!(sp.bytes_per_block, 7);
    assert_eq!(sp.block_num, 0x100);
    assert_eq!(sp.root_table_offset, 0);
}

#[test]
fn make_copies_a_tree() {
    let tree = SourceDir {
        path: "src".to_string(),
        files: vec![SourceFile { path: "src/a.txt".to_string(), content: b"hello".to_vec() }],
        dirs: vec![SourceDir {
            path: "src/sub".to_string(),
            files: vec![SourceFile { path: "src/sub/b.txt".to_string(), content: b"xy".to_vec() }],
            dirs: Vec::new(),
        }],
    };
    let mut mk = Maker::new("src".to_string(), "img".to_string(), TianMu::new(64, 4096), Vec::new());
    assert_eq!(mk.make(&tree), Ok(()));
    let img = &mk.image;
    assert_eq!(img.len(), 4096);
    // The file's contents sit in block 25, the first free block.
    assert_eq!(&img[1600..1605], b"hello");
    // The root directory (block 24) holds `a.txt`, then `sub`.
    assert_eq!(&img[1536..1541], b"a.txt");
    assert_eq!(img[1551], 1);
    assert_eq!(u64_at(img, 1552), 25);
    assert_eq!(u64_at(img, 1560), 5);
    assert_eq!(&img[1568..1571], b"sub");
    assert_eq!(img[1583], 2);
    assert_eq!(u64_at(img, 1584), 26);
    // `sub` (block 26) holds `b.txt`, stored in block 27.
    assert_eq!(&img[1664..1669], b"b.txt");
    assert_eq!(u64_at(img, 1680), 27);
    assert_eq!(u64_at(img, 1688), 2);
    assert_eq!(&img[1728..1730], b"xy");
    // Blocks 25, 26 and 27 end their chains.
    assert_eq!(u64_at(img, 1024 + 8 * 25), u64::MAX);
    assert_eq!(u64_at(img, 1024 + 8 * 26), u64::MAX);
    assert_eq!(u64_at(img, 1024 + 8 * 27), u64::MAX);
    assert_eq!(u64_at(img, 1024 + 8 * 28), 0);
}

#[test]
fn make_stops_at_an_empty_file() {
    let tree = SourceDir {
        path: "src".to_string(),
        files: vec![SourceFile { path: "src/e".to_string(), content: Vec::new() }],
        dirs: Vec::new(),
    };
    let mut mk = Maker::new("src".to_string(), "img".to_string(), TianMu::new(64, 4096), Vec::new());
    assert_eq!(mk.make(&tree), Err(MakeError::EmptyFile));
}

#[test]
fn make_stops_when_the_format_cannot_lay_out_a_map() {
    let mut mk = Maker::new("src".to_string(), "img".to_string(), TianMu::new(4, 100), Vec::new());
    assert_eq!(mk.make(&empty_tree("src")), Err(MakeError::Overflow));
}

#[test]
fn make_keeps_bytes_past_the_image() {
    let old = vec![9u8; 5000];
    let mut mk = Maker::new("src".to_string(), "img".to_string(), TianMu::new(64, 4096), old);
    assert_eq!(mk.make(&empty_tree("src")), Ok(()));
    assert_eq!(mk.image.len(), 5000);
    assert_eq!(mk.image[4096], 9);
    assert_eq!(mk.image[4095], 0);
}

#[test]
fn make_lays_files_out_one_after_another() {
    let big: Vec<u8> = (0..200u32).map(|i| (i * 3) as u8).collect();
    let tree = SourceDir {
        path: "src".to_string(),
        files: vec![
            SourceFile { path: "src/a.txt".to_string(), content: b"hello".to_vec() },
            SourceFile { path: "src/b".to_string(), content: big.clone() },
            SourceFile { path: "src/c".to_string(), content: vec![7u8] },
        ],
        dirs: Vec::new(),
    };
    // 32 blocks of 128 bytes: the root directory is block 10, and blocks 0
    // to 10 are reserved.
    let mut mk = Maker::new("src".to_string(), "img".to_string(), TianMu::new(128, 4096), Vec::new());
    assert_eq!(mk.make(&tree), Ok(()));
    let img = &mk.image;
    assert_eq!(&img[1280..1285], b"a.txt");
    assert_eq!(img[1295], 1);
    assert_eq!(u64_at(img, 1296), 11);
    assert_eq!(u64_at(img, 1304), 5);
    assert_eq!(&img[1312..1313], b"b");
    assert_eq!(u64_at(img, 1328), 12);
    assert_eq!(u64_at(img, 1336), 200);
    assert_eq!(&img[1344..1345], b"c");
    assert_eq!(u64_at(img, 1360), 14);
    assert_eq!(u64_at(img, 1368), 1);
    // The contents, one file after another, chained in the map.
    assert_eq!(&img[11 * 128..11 * 128 + 5], b"hello");
    assert_eq!(&img[12 * 128..13 * 128], &big[0..128]);
    assert_eq!(&img[13 * 128..13 * 128 + 72], &big[128..200]);
    assert_eq!(img[14 * 128], 7);
    assert_eq!(u64_at(img, 1024 + 8 * 11), u64::MAX);
    assert_eq!(u64_at(img, 1024 + 8 * 12), 13);
    assert_eq!(u64_at(img, 1024 + 8 * 13), u64::MAX);
    assert_eq!(u64_at(img, 1024 + 8 * 14), u64::MAX);
    assert_eq!(u64_at(img, 1024 + 8 * 15), 0);
}
