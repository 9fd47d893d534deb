//! The items of the `tianmu_fs` crate that images are built from: its
//! directory items, its super block and its magic number. Each call goes
//! through a small trusted function whose contract restates what the
//! crate's source does.
use vstd::prelude::*;
use vstd::utf8::*;
use crate::entry::{DirEntry, DirEntryView, name_field, ATTR_FILE, ATTR_DIRECTORY};

verus! {

/// The fields of a TianMu super block, as plain values.
pub struct SuperBlockFields {
    pub jump1: u8,
    pub jump2: u8,
    pub jump3: u8,
    pub oem: [u8; 8],
    pub bytes_per_block: u64,
    pub block_num: u64,
    pub block_map_offset: u64,
    pub root_table_offset: u64,
}

/// The mathematical value of a super block.
pub struct SuperBlockView {
    pub jump1: u8,
    pub jump2: u8,
    pub jump3: u8,
    pub oem: Seq<u8>,
    pub bytes_per_block: u64,
    pub block_num: u64,
    pub block_map_offset: u64,
    pub root_table_offset: u64,
}

impl View for SuperBlockFields {
    type V = SuperBlockView;

    open spec fn view(&self) -> SuperBlockView {
        SuperBlockView {
            jump1: self.jump1,
            jump2: self.jump2,
            jump3: self.jump3,
            oem: self.oem@,
            bytes_per_block: self.bytes_per_block,
            block_num: self.block_num,
            block_map_offset: self.block_map_offset,
            root_table_offset: self.root_table_offset,
        }
    }
}

/// `tianmu_fs::DirItem::new_file`. Its source copies the file name's bytes
/// into the fifteen-byte name field, stopping after fifteen and leaving the
/// rest zero, marks the item as a file and stores the start block and the
/// length as `u64`.
#[verifier::external_body]
pub(crate) fn new_file_item(filename: &String, start_block: usize, length: usize) -> (r: DirEntry)
    ensures
        r@ == (DirEntryView {
            name: name_field(encode_utf8(filename@)),
            attr: ATTR_FILE,
            start_block: start_block as u64,
            length: length as u64,
        }),
{
    let it = tianmu_fs::DirItem::new_file(filename, start_block, length);
    DirEntry { name: it.name, attr: it.attr as u8, start_block: it.start_block, length: it.length }
}

/// `tianmu_fs::DirItem::new_dir`. Its source asserts that the name has at
/// most fifteen bytes (so that input is left out here), copies them into
/// the zero-filled name field, marks the item as a directory and stores the
/// start block and the length as `u64`.
#[verifier::external_body]
pub(crate) fn new_dir_item(dirname: &String, start_block: usize, length: usize) -> (r: DirEntry)
    requires
        encode_utf8(dirname@).len() <= 15,
    ensures
        r@ == (DirEntryView {
            name: name_field(encode_utf8(dirname@)),
            attr: ATTR_DIRECTORY,
            start_block: start_block as u64,
            length: length as u64,
        }),
{
    let it = tianmu_fs::DirItem::new_dir(dirname, start_block, length);
    DirEntry { name: it.name, attr: it.attr as u8, start_block: it.start_block, length: it.length }
}

/// `tianmu_fs::SuperBlock::new`. Its source zeroes the three jump bytes and
/// the OEM field and stores the four arguments as `u64` in its setting.
#[verifier::external_body]
pub(crate) fn new_super_block(
    block_size: usize,
    block_num: usize,
    map_offset: usize,
    root_offset: usize,
) -> (r: SuperBlockFields)
    ensures
        r.jump1 == 0,
        r.jump2 == 0,
        r.jump3 == 0,
        r.oem@ == seq![0u8, 0u8, 0u8, 0u8, 0u8, 0u8, 0u8, 0u8],
        r.bytes_per_block == block_size as u64,
        r.block_num == block_num as u64,
        r.block_map_offset == map_offset as u64,
        r.root_table_offset == root_offset as u64,
{
    let sp = tianmu_fs::SuperBlock::new(block_size, block_num, map_offset, root_offset);
    SuperBlockFields {
        jump1: sp.jump1,
        jump2: sp.jump2,
        jump3: sp.jump3,
        oem: sp.oem,
        bytes_per_block: sp.setting.bytes_per_block,
        block_num: sp.setting.block_num,
        block_map_offset: sp.setting.block_map_offset,
        root_table_offset: sp.setting.root_table_offset,
    }
}

/// `tianmu_fs::MAGIC`, the crate's magic number: the constant `0x2333`.
#[verifier::external_body]
pub(crate) fn tianmu_magic() -> (m: u64)
    ensures
        m == 0x2333,
{
    tianmu_fs::MAGIC
}

} // verus!
