//! The TianMu layout: a super block, a block map of one `u64` per block,
//! and blocks holding directory items and file contents.
//!
//! Layout of an image: bytes `0..1024` hold the super block (its setting of
//! four little-endian `u64`, the magic number at byte 512); from byte 1024
//! the block map holds one little-endian `u64` per block (`0` free, `END`
//! the last block of a chain, otherwise the next block of the chain); the
//! root directory starts at `root_offset`.
use vstd::prelude::*;
use vstd::bytes::*;
use crate::image::{write_at, readable, u64_at, read_over, read_count, zeros, write_bytes, read_into, zero_bytes, lemma_write_concat};
use crate::require::{MakeError, MakeSystem, outcome_matches};
use crate::path::{SLASH, after_first, dir_segments, segments_from, last_name, last_name_string, split_after_first};
use crate::fs_items::{new_file_item, new_dir_item};
use crate::entry::{name_field, ATTR_FILE, ATTR_DIRECTORY};
use vstd::utf8::is_continuation_byte;
use crate::fs_items::{new_super_block, tianmu_magic, SuperBlockFields, SuperBlockView};
use crate::entry::{DirEntry, DirEntryView, decode_entry, encode_entry, name_matches, slice_to_string, until_nul, latin1};
use vstd::utf8::encode_utf8;

verus! {

/// Block-map value that ends a chain (and marks the reserved blocks).
pub const END: u64 = 0xffff_ffff_ffff_ffff;

/// The parameters of a TianMu image.
pub struct TianMuParams {
    pub block_size: usize,
    pub image_size: usize,
    pub block_map_addr: usize,
    pub root_offset: usize,
    pub block_num: usize,
}

/// The offset of the root directory: the first block boundary at or after
/// the end of a block map of `block_num` entries that starts at byte 1024.
pub open spec fn root_offset_for(block_size: int, block_num: int) -> int {
    (block_num * 8 + 1024 + block_size - 1) / block_size * block_size
}

/// The relations that `TianMu::new` establishes between the parameters.
pub open spec fn params_ok(p: TianMuParams) -> bool {
    &&& p.block_size > 0
    &&& p.block_map_addr == 1024
    &&& p.block_num == p.image_size / p.block_size
    &&& p.block_num * 8 + 1024 + p.block_size <= usize::MAX
    &&& p.root_offset == root_offset_for(p.block_size as int, p.block_num as int)
}

/// The TianMu format with its block size and image size.
pub struct TianMu {
    block_size: usize,
    image_size: usize,
    block_map_addr: usize,
    root_offset: usize,
    block_num: usize,
}

impl View for TianMu {
    type V = TianMuParams;

    closed spec fn view(&self) -> TianMuParams {
        TianMuParams {
            block_size: self.block_size,
            image_size: self.image_size,
            block_map_addr: self.block_map_addr,
            root_offset: self.root_offset,
            block_num: self.block_num,
        }
    }
}

/// `n` bytes of `0xff`.
pub open spec fn ones(n: nat) -> Seq<u8> {
    Seq::new(n, |i: int| 0xffu8)
}

/// Number of block-map entries that one block holds.
pub open spec fn entries_per_block(p: TianMuParams) -> int {
    (p.block_size / 8) as int
}

/// Number of block-map entries cleared when the map is laid out: the block
/// count rounded up to whole blocks of entries.
pub open spec fn map_slots(p: TianMuParams) -> int {
    let epb = entries_per_block(p);
    (p.block_num + epb - 1) / epb * epb
}

/// Number of leading blocks marked as used: those before the root
/// directory, and the root directory's first block.
pub open spec fn reserved_blocks(p: TianMuParams) -> int {
    p.root_offset / p.block_size + 1
}

/// Laying out an empty block map: every block is zeroed, the map entries
/// are cleared, and the entries of the reserved blocks are set to `END`.
pub open spec fn spec_init(p: TianMuParams, img: Seq<u8>) -> Result<Seq<u8>, MakeError> {
    let epb = entries_per_block(p);
    if epb == 0 || p.block_num + epb > usize::MAX {
        Err(MakeError::Overflow)
    } else if p.block_map_addr + 8 * map_slots(p) > usize::MAX || p.block_map_addr + 8
        * reserved_blocks(p) > usize::MAX {
        Err(MakeError::Overflow)
    } else {
        let cleared = write_at(img, 0, zeros((p.block_num * p.block_size) as nat));
        let mapped = write_at(cleared, p.block_map_addr as int, zeros((8 * map_slots(p)) as nat));
        Ok(write_at(mapped, p.block_map_addr as int, ones((8 * reserved_blocks(p)) as nat)))
    }
}

/// Size in bytes of a TianMu super block in memory, which is what is
/// written at the start of the image.
pub const SUPER_BLOCK_SIZE: usize = 48;

/// The bytes of the super block of `p`: its setting (block size, block
/// count, map offset, root offset, each a little-endian `u64`), then the
/// eight OEM bytes, the three jump bytes and five bytes of padding, all
/// zero. The setting comes first because it is the most aligned field.
pub open spec fn super_block_bytes(p: TianMuParams) -> Seq<u8> {
    spec_u64_to_le_bytes(p.block_size as u64) + spec_u64_to_le_bytes(p.block_num as u64)
        + spec_u64_to_le_bytes(p.block_map_addr as u64) + spec_u64_to_le_bytes(
        p.root_offset as u64,
    ) + zeros(16)
}

/// The first 1024 bytes of an image: the super block, zeros up to byte
/// 512, the magic number `0x2333` as a little-endian `u64`, and zeros.
pub open spec fn super_block_region(p: TianMuParams) -> Seq<u8> {
    super_block_bytes(p) + zeros(464) + spec_u64_to_le_bytes(0x2333) + zeros(504)
}

/// Writing the super block region at the start of the image.
pub open spec fn spec_super_block(p: TianMuParams, img: Seq<u8>) -> Seq<u8> {
    write_at(img, 0, super_block_region(p))
}

/// The super block stored in the bytes `b` (at least 48 of them), read
/// with the layout that `super_block_bytes` writes.
pub open spec fn decode_super_block(b: Seq<u8>) -> SuperBlockView {
    SuperBlockView {
        bytes_per_block: spec_u64_from_le_bytes(b.subrange(0, 8)),
        block_num: spec_u64_from_le_bytes(b.subrange(8, 16)),
        block_map_offset: spec_u64_from_le_bytes(b.subrange(16, 24)),
        root_table_offset: spec_u64_from_le_bytes(b.subrange(24, 32)),
        oem: b.subrange(32, 40),
        jump1: b[40],
        jump2: b[41],
        jump3: b[42],
    }
}

/// Reads the super block stored in the bytes `b`.
pub fn decode_super_block_bytes(b: &[u8]) -> (r: SuperBlockFields)
    requires
        b@.len() >= 48,
    ensures
        r@ == decode_super_block(b@),
{
    let mut oem = [0u8; 8];
    let mut i: usize = 0;
    while i < 8
        invariant
            i <= 8,
            b@.len() >= 48,
            forall|k: int| 0 <= k < i ==> oem@[k] == b@[32 + k],
        decreases 8 - i,
    {
        oem[i] = b[32 + i];
        i = i + 1;
    }
    let r = SuperBlockFields {
        jump1: b[40],
        jump2: b[41],
        jump3: b[42],
        oem,
        bytes_per_block: u64_from_le_bytes(vstd::slice::slice_subrange(b, 0, 8)),
        block_num: u64_from_le_bytes(vstd::slice::slice_subrange(b, 8, 16)),
        block_map_offset: u64_from_le_bytes(vstd::slice::slice_subrange(b, 16, 24)),
        root_table_offset: u64_from_le_bytes(vstd::slice::slice_subrange(b, 24, 32)),
    };
    assert(r.oem@ =~= b@.subrange(32, 40));
    r
}

/// The super block read back from an image whose super block was written
/// holds the format's parameters, zero jump and OEM bytes, and the magic
/// number sits at byte 512.
pub proof fn lemma_super_block_round_trip(p: TianMuParams, img: Seq<u8>)
    ensures
        decode_super_block(read_over(spec_super_block(p, img), 0, zeros(1024))) == (SuperBlockView {
            jump1: 0,
            jump2: 0,
            jump3: 0,
            oem: zeros(8),
            bytes_per_block: p.block_size as u64,
            block_num: p.block_num as u64,
            block_map_offset: p.block_map_addr as u64,
            root_table_offset: p.root_offset as u64,
        }),
        u64_at(spec_super_block(p, img), 512) == 0x2333,
{
    lemma_auto_spec_u64_to_from_le_bytes();
    let region = super_block_region(p);
    let out = spec_super_block(p, img);
    assert(region.len() == 1024);
    let b = read_over(out, 0, zeros(1024));
    assert(b =~= region);
    let sb = super_block_bytes(p);
    assert(region.subrange(0, 8) =~= spec_u64_to_le_bytes(p.block_size as u64));
    assert(region.subrange(8, 16) =~= spec_u64_to_le_bytes(p.block_num as u64));
    assert(region.subrange(16, 24) =~= spec_u64_to_le_bytes(p.block_map_addr as u64));
    assert(region.subrange(24, 32) =~= spec_u64_to_le_bytes(p.root_offset as u64));
    assert(region.subrange(32, 40) =~= zeros(8));
    assert(out.subrange(512, 520) =~= spec_u64_to_le_bytes(0x2333));
}

/// The in-memory bytes of a super block.
fn encode_super_block(sp: &SuperBlockFields) -> (r: Vec<u8>)
    ensures
        r@ == spec_u64_to_le_bytes(sp.bytes_per_block) + spec_u64_to_le_bytes(sp.block_num)
            + spec_u64_to_le_bytes(sp.block_map_offset) + spec_u64_to_le_bytes(
            sp.root_table_offset,
        ) + sp.oem@ + seq![sp.jump1, sp.jump2, sp.jump3] + zeros(5),
{
    let mut r = u64_to_le_bytes(sp.bytes_per_block);
    let mut b = u64_to_le_bytes(sp.block_num);
    r.append(&mut b);
    let mut m = u64_to_le_bytes(sp.block_map_offset);
    r.append(&mut m);
    let mut o = u64_to_le_bytes(sp.root_table_offset);
    r.append(&mut o);
    let ghost before = r@;
    let mut i: usize = 0;
    while i < 8
        invariant
            i <= 8,
            r@ == before + sp.oem@.subrange(0, i as int),
        decreases 8 - i,
    {
        r.push(sp.oem[i]);
        i = i + 1;
    }
    assert(sp.oem@.subrange(0, 8) =~= sp.oem@);
    r.push(sp.jump1);
    r.push(sp.jump2);
    r.push(sp.jump3);
    let mut pad = zero_bytes(5);
    r.append(&mut pad);
    assert(r@ =~= spec_u64_to_le_bytes(sp.bytes_per_block) + spec_u64_to_le_bytes(sp.block_num)
        + spec_u64_to_le_bytes(sp.block_map_offset) + spec_u64_to_le_bytes(sp.root_table_offset)
        + sp.oem@ + seq![sp.jump1, sp.jump2, sp.jump3] + zeros(5));
    r
}

/// The block-map scan that looks for `num` free blocks, from block `i`,
/// with the image read position at `pos`, the read buffer holding `buf`
/// and the free blocks `found` so far. Entries are read one after another;
/// a block is free when its entry is zero; the scan stops as soon as `num`
/// blocks are found (after reading at least one entry) and fails when it
/// runs out of blocks with a different count, or when a read starts at the
/// end of the image.
pub open spec fn scan_free(
    p: TianMuParams,
    img: Seq<u8>,
    num: int,
    i: int,
    pos: int,
    buf: Seq<u8>,
    found: Seq<usize>,
) -> Result<Seq<usize>, MakeError>
    decreases p.block_num - i,
{
    if i >= p.block_num {
        if found.len() == num {
            Ok(found)
        } else {
            Err(MakeError::NoFreeBlock)
        }
    } else if pos >= img.len() {
        Err(MakeError::ReadPastEnd)
    } else {
        let b2 = read_over(img, pos, buf);
        let f2 = if spec_u64_from_le_bytes(b2) == 0 {
            found.push(i as usize)
        } else {
            found
        };
        if f2.len() == num {
            Ok(f2)
        } else {
            scan_free(p, img, num, i + 1, pos + read_count(img, pos, 8), b2, f2)
        }
    }
}

/// The free blocks that a request for `num` blocks receives.
pub open spec fn spec_find_free(p: TianMuParams, img: Seq<u8>, num: int) -> Result<Seq<usize>, MakeError> {
    scan_free(p, img, num, 0, p.block_map_addr as int, zeros(8), Seq::empty())
}

/// The block-map value that follows `blocks[k]` in the chain of `blocks`.
pub open spec fn next_link(blocks: Seq<usize>, k: int) -> u64 {
    if k + 1 < blocks.len() {
        blocks[k + 1] as u64
    } else {
        END
    }
}

/// The image after linking `blocks` into one chain in the block map: the
/// entry of each block names the next one, the last one's entry is `END`.
/// The entries are written from the last block to the first.
pub open spec fn spec_fill(p: TianMuParams, img: Seq<u8>, blocks: Seq<usize>) -> Seq<u8>
    decreases blocks.len(),
{
    if blocks.len() == 0 {
        img
    } else {
        write_at(
            spec_fill(p, img, blocks.drop_first()),
            p.block_map_addr + 8 * blocks[0],
            spec_u64_to_le_bytes(next_link(blocks, 0)),
        )
    }
}

/// Every block lies inside the image's block count.
pub open spec fn blocks_in_range(p: TianMuParams, blocks: Seq<usize>) -> bool {
    forall|k: int| 0 <= k < blocks.len() ==> #[trigger] blocks[k] < p.block_num
}

/// The blocks a scan returns lie inside the block count.
proof fn lemma_scan_in_range(
    p: TianMuParams,
    img: Seq<u8>,
    num: int,
    i: int,
    pos: int,
    buf: Seq<u8>,
    found: Seq<usize>,
)
    requires
        blocks_in_range(p, found),
        0 <= i,
    ensures
        scan_free(p, img, num, i, pos, buf, found) matches Ok(v) ==> blocks_in_range(p, v) && v.len()
            == num,
    decreases p.block_num - i,
{
    if i < p.block_num && pos < img.len() {
        let b2 = read_over(img, pos, buf);
        let f2 = if spec_u64_from_le_bytes(b2) == 0 {
            found.push(i as usize)
        } else {
            found
        };
        assert(blocks_in_range(p, f2));
        if f2.len() != num {
            lemma_scan_in_range(p, img, num, i + 1, pos + read_count(img, pos, 8), b2, f2);
        }
    }
}

/// The block that growing a directory takes lies inside the block count.
proof fn lemma_expend_in_range(p: TianMuParams, img: Seq<u8>, idx: usize)
    ensures
        spec_expend(p, img, idx) matches Ok((next, i)) ==> next < p.block_num,
{
    lemma_scan_in_range(p, img, 1, 0, p.block_map_addr as int, zeros(8), Seq::empty());
}

/// Piece `k` of `data` cut into blocks of `bs` bytes.
pub open spec fn chunk(data: Seq<u8>, bs: int, k: int) -> Seq<u8> {
    let end = if (k + 1) * bs < data.len() { (k + 1) * bs } else { data.len() as int };
    data.subrange(k * bs, end)
}

/// The image after writing the first `k` pieces of `data` into the blocks
/// `blocks[0..k]`, one piece per block, in order.
pub open spec fn spec_write_chunks(
    p: TianMuParams,
    img: Seq<u8>,
    blocks: Seq<usize>,
    data: Seq<u8>,
    k: int,
) -> Seq<u8>
    decreases k,
{
    if k <= 0 {
        img
    } else {
        write_at(
            spec_write_chunks(p, img, blocks, data, k - 1),
            blocks[k - 1] * p.block_size,
            chunk(data, p.block_size as int, k - 1),
        )
    }
}

/// Number of blocks that `len` bytes occupy.
pub open spec fn blocks_for(len: int, bs: int) -> int {
    (len + bs - 1) / bs
}

/// Storing a file's contents: enough free blocks are taken, the contents
/// are written into them piece by piece, they are linked into a chain, and
/// the first block is the result. A file without contents fails after
/// that, having no first block.
pub open spec fn spec_store(p: TianMuParams, img: Seq<u8>, data: Seq<u8>) -> Result<
    (usize, Seq<u8>),
    MakeError,
> {
    if data.len() + p.block_size > usize::MAX {
        Err(MakeError::Overflow)
    } else {
        let num = blocks_for(data.len() as int, p.block_size as int);
        match spec_find_free(p, img, num) {
            Err(e) => Err(e),
            Ok(blocks) => {
                let written = spec_write_chunks(p, img, blocks, data, num);
                if num == 0 {
                    Err(MakeError::EmptyFile)
                } else {
                    Ok((blocks[0], spec_fill(p, written, blocks)))
                }
            },
        }
    }
}

/// `pre` put in front of the blocks of a chain result.
pub open spec fn prepend(pre: Seq<usize>, r: Result<Seq<usize>, MakeError>) -> Result<
    Seq<usize>,
    MakeError,
> {
    match r {
        Ok(s) => Ok(pre + s),
        Err(e) => Err(e),
    }
}

/// The rest of a directory's block chain as the directory reader follows
/// it, from the map entry read at byte `addr`: a zero or `END` entry (or a
/// zero address) ends the chain; any other value `t` is the next block, and
/// its successor is read at byte `8 * t`. Reads use a fresh zeroed buffer,
/// so a read that reaches past the end sees zeros there; a read that starts
/// at the end fails. A chain that has not ended after `fuel` reads is
/// reported as looping (with as many reads as the image has bytes, only a
/// chain that never ends is).
pub open spec fn chain_rest(img: Seq<u8>, addr: int, fuel: nat) -> Result<Seq<usize>, MakeError>
    decreases fuel,
{
    if addr == 0 {
        Ok(Seq::empty())
    } else if addr >= img.len() {
        Err(MakeError::ReadPastEnd)
    } else if fuel == 0 {
        Err(MakeError::ChainLoops)
    } else {
        let t = spec_u64_from_le_bytes(read_over(img, addr, zeros(8)));
        if t == 0 || t == END {
            Ok(Seq::empty())
        } else if t * 8 > usize::MAX {
            Err(MakeError::Overflow)
        } else {
            prepend(seq![t as usize], chain_rest(img, t * 8, (fuel - 1) as nat))
        }
    }
}

/// The blocks of the directory that starts at block `st`, as the
/// directory reader lists them.
pub open spec fn spec_chain(p: TianMuParams, img: Seq<u8>, st: usize) -> Result<Seq<usize>, MakeError> {
    if p.block_map_addr + 8 * st > usize::MAX {
        Err(MakeError::Overflow)
    } else {
        prepend(seq![st], chain_rest(img, p.block_map_addr + 8 * st, img.len()))
    }
}

/// Number of directory items that one block holds.
pub open spec fn slots_per_block(p: TianMuParams) -> int {
    (p.block_size / 32) as int
}

/// The search of one directory block for the item named `name`, from slot
/// `j` with the read position at `pos` and the buffer holding `buf`: items
/// are read one after another; the first whose name matches is the result.
pub open spec fn search_slots(
    img: Seq<u8>,
    pos: int,
    j: int,
    num: int,
    buf: Seq<u8>,
    name: Seq<u8>,
) -> Result<Option<DirEntryView>, MakeError>
    decreases num - j,
{
    if j >= num {
        Ok(None)
    } else if pos >= img.len() {
        Err(MakeError::ReadPastEnd)
    } else {
        let b2 = read_over(img, pos, buf);
        let e = decode_entry(b2);
        if name_matches(e.name, name) {
            Ok(Some(e))
        } else {
            search_slots(img, pos + read_count(img, pos, 32), j + 1, num, b2, name)
        }
    }
}

/// The search of the blocks `blocks`, in order, for the item named `name`.
pub open spec fn search_blocks(p: TianMuParams, img: Seq<u8>, blocks: Seq<usize>, name: Seq<u8>) -> Result<
    Option<DirEntryView>,
    MakeError,
>
    decreases blocks.len(),
{
    if blocks.len() == 0 {
        Ok(None)
    } else if blocks[0] * p.block_size > usize::MAX {
        Err(MakeError::Overflow)
    } else {
        match search_slots(
            img,
            blocks[0] * p.block_size,
            0,
            slots_per_block(p),
            zeros(32),
            name,
        ) {
            Err(e) => Err(e),
            Ok(Some(e)) => Ok(Some(e)),
            Ok(None) => search_blocks(p, img, blocks.drop_first(), name),
        }
    }
}

/// The item named `name` in the directory that starts at block `dir_idx`,
/// if there is one.
pub open spec fn spec_get_dir_item(p: TianMuParams, img: Seq<u8>, dir_idx: usize, name: Seq<u8>) -> Result<
    Option<DirEntryView>,
    MakeError,
> {
    match spec_chain(p, img, dir_idx) {
        Err(e) => Err(e),
        Ok(c) => search_blocks(p, img, c, name),
    }
}

/// The walk along a block chain in the block map done when a directory
/// grows, from the entry at byte `addr` that held `flag`, with the read
/// buffer holding `buf`: while the entry is not `END`, the next entry is
/// read at `8 * flag` bytes into the map. The result is the address of the
/// `END` entry. A walk that has not reached `END` after `fuel` reads is
/// reported as looping.
pub open spec fn walk_to_end(
    p: TianMuParams,
    img: Seq<u8>,
    addr: int,
    flag: u64,
    buf: Seq<u8>,
    fuel: nat,
) -> Result<int, MakeError>
    decreases fuel,
{
    if flag == END {
        Ok(addr)
    } else if flag * 8 + p.block_map_addr > usize::MAX {
        Err(MakeError::Overflow)
    } else {
        let a2 = flag * 8 + p.block_map_addr;
        if a2 >= img.len() {
            Err(MakeError::ReadPastEnd)
        } else if fuel == 0 {
            Err(MakeError::ChainLoops)
        } else {
            let b2 = read_over(img, a2, buf);
            walk_to_end(p, img, a2, spec_u64_from_le_bytes(b2), b2, (fuel - 1) as nat)
        }
    }
}

/// Growing the directory that starts at block `idx` by one block: the
/// directory's own map entry must not be free; the chain is walked to its
/// `END` entry; a free block is taken, linked after it and marked `END`.
/// The result is the new block and the image.
pub open spec fn spec_expend(p: TianMuParams, img: Seq<u8>, idx: usize) -> Result<(usize, Seq<u8>), MakeError> {
    let a0 = p.block_map_addr + 8 * idx;
    if a0 > usize::MAX {
        Err(MakeError::Overflow)
    } else if a0 >= img.len() {
        Err(MakeError::ReadPastEnd)
    } else {
        let b0 = read_over(img, a0, zeros(8));
        let f0 = spec_u64_from_le_bytes(b0);
        if f0 == 0 {
            Err(MakeError::FreeChainEntry)
        } else {
            match walk_to_end(p, img, a0, f0, b0, img.len()) {
                Err(e) => Err(e),
                Ok(last) => match spec_find_free(p, img, 1) {
                    Err(e) => Err(e),
                    Ok(bl) => if last + 8 > usize::MAX {
                        Err(MakeError::Overflow)
                    } else {
                        let next = bl[0];
                        let linked = write_at(img, last, spec_u64_to_le_bytes(next as u64));
                        Ok(
                            (
                                next,
                                write_at(
                                    linked,
                                    p.block_map_addr + 8 * next,
                                    spec_u64_to_le_bytes(END),
                                ),
                            ),
                        )
                    },
                },
            }
        }
    }
}

/// The search of one directory block for a free slot, from slot `j` with
/// the read position at `pos` and the buffer holding `buf`: the result is
/// the position of the first slot read whose attribute byte is zero.
pub open spec fn empty_slot(img: Seq<u8>, pos: int, j: int, num: int, buf: Seq<u8>) -> Result<
    Option<int>,
    MakeError,
>
    decreases num - j,
{
    if j >= num {
        Ok(None)
    } else if pos >= img.len() {
        Err(MakeError::ReadPastEnd)
    } else {
        let b2 = read_over(img, pos, buf);
        if decode_entry(b2).attr == 0 {
            Ok(Some(pos))
        } else {
            empty_slot(img, pos + read_count(img, pos, 32), j + 1, num, b2)
        }
    }
}

/// The search of the blocks `blocks`, in order, for a free slot.
pub open spec fn empty_slot_in_blocks(p: TianMuParams, img: Seq<u8>, blocks: Seq<usize>) -> Result<
    Option<int>,
    MakeError,
>
    decreases blocks.len(),
{
    if blocks.len() == 0 {
        Ok(None)
    } else if blocks[0] * p.block_size > usize::MAX {
        Err(MakeError::Overflow)
    } else {
        match empty_slot(img, blocks[0] * p.block_size, 0, slots_per_block(p), zeros(32)) {
            Err(e) => Err(e),
            Ok(Some(pos)) => Ok(Some(pos)),
            Ok(None) => empty_slot_in_blocks(p, img, blocks.drop_first()),
        }
    }
}

/// Adding `item` to the directory that starts at block `dir_idx`: it goes
/// into the first free slot of the directory's blocks. When there is none,
/// the directory grows by a block and the slots are then read on from just
/// after the new block's map entry (where the reader stands after growing
/// the directory); the item goes into the first free one of those, and
/// when there is none the addition fails.
pub open spec fn spec_add_dir_item(p: TianMuParams, img: Seq<u8>, dir_idx: usize, item: DirEntryView) -> Result<
    Seq<u8>,
    MakeError,
> {
    match spec_chain(p, img, dir_idx) {
        Err(e) => Err(e),
        Ok(c) => match empty_slot_in_blocks(p, img, c) {
            Err(e) => Err(e),
            Ok(Some(pos)) => if pos + 32 > usize::MAX {
                Err(MakeError::Overflow)
            } else {
                Ok(write_at(img, pos, encode_entry(item)))
            },
            Ok(None) => match spec_expend(p, img, dir_idx) {
                Err(e) => Err(e),
                Ok((next, grown)) => match empty_slot(
                    grown,
                    p.block_map_addr + 8 * next + 8,
                    0,
                    slots_per_block(p),
                    zeros(32),
                ) {
                    Err(e) => Err(e),
                    Ok(Some(pos)) => if pos + 32 > usize::MAX {
                        Err(MakeError::Overflow)
                    } else {
                        Ok(write_at(grown, pos, encode_entry(item)))
                    },
                    Ok(None) => Err(MakeError::DirFull),
                },
            },
        },
    }
}

/// One step down a path: from the directory that starts at block `idx`
/// into the directory part `seg`. An empty part is skipped; a part longer
/// than fifteen bytes is cut to its first fifteen, which must not split a
/// character; the item of that name must exist, and its first block is
/// where the walk goes on.
pub open spec fn walk_step(p: TianMuParams, img: Seq<u8>, idx: usize, seg: Seq<u8>) -> Result<usize, MakeError> {
    if seg.len() == 0 {
        Ok(idx)
    } else if seg.len() > 15 && is_continuation_byte(seg[15]) {
        Err(MakeError::NameNotCharBoundary)
    } else {
        let key = if seg.len() > 15 {
            seg.subrange(0, 15)
        } else {
            seg
        };
        match spec_get_dir_item(p, img, idx, key) {
            Err(e) => Err(e),
            Ok(None) => Err(MakeError::DirNotFound),
            Ok(Some(it)) => if it.start_block > usize::MAX {
                Err(MakeError::Overflow)
            } else {
                Ok(it.start_block as usize)
            },
        }
    }
}

/// The walk down the directory parts `segs` from the directory that starts
/// at block `idx`; the result is the first block of the last directory.
pub open spec fn walk_dirs(p: TianMuParams, img: Seq<u8>, idx: usize, segs: Seq<Seq<u8>>) -> Result<
    usize,
    MakeError,
>
    decreases segs.len(),
{
    if segs.len() == 0 {
        Ok(idx)
    } else {
        match walk_step(p, img, idx, segs[0]) {
            Err(e) => Err(e),
            Ok(i2) => walk_dirs(p, img, i2, segs.drop_first()),
        }
    }
}

/// The block of the root directory.
pub open spec fn root_block(p: TianMuParams) -> usize {
    (p.root_offset / p.block_size) as usize
}

/// The byte offset of the directory that holds `rel` (a path relative to
/// the root), found by walking its directory parts from the root.
pub open spec fn spec_find_dir_addr(p: TianMuParams, img: Seq<u8>, rel: Seq<u8>) -> Result<usize, MakeError> {
    match walk_dirs(p, img, root_block(p), dir_segments(rel)) {
        Err(e) => Err(e),
        Ok(idx) => if idx * p.block_size > usize::MAX {
            Err(MakeError::Overflow)
        } else {
            Ok((idx * p.block_size) as usize)
        },
    }
}

/// Adding the file at path bytes `path`, under root path bytes `root`,
/// with contents `content`: its contents are stored first; then the
/// directory that holds it is found from the part of the path after the
/// root, and an item with the file's last path part as its name, its first
/// block and its length is put into that directory.
pub open spec fn spec_add_file_bytes(
    p: TianMuParams,
    root: Seq<u8>,
    path: Seq<u8>,
    content: Seq<u8>,
    img: Seq<u8>,
) -> Result<Seq<u8>, MakeError> {
    match spec_store(p, img, content) {
        Err(e) => Err(e),
        Ok((start, stored)) => match after_first(path, root) {
            None => Err(MakeError::RootNotInPath),
            Some(rel) => match spec_find_dir_addr(p, stored, rel) {
                Err(e) => Err(e),
                Ok(addr) => spec_add_dir_item(
                    p,
                    stored,
                    (addr / p.block_size) as usize,
                    DirEntryView {
                        name: name_field(last_name(path)),
                        attr: ATTR_FILE,
                        start_block: start as u64,
                        length: content.len() as u64,
                    },
                ),
            },
        },
    }
}

/// Adding the directory at path bytes `path` under root path bytes
/// `root`: the directory that holds it is found from the part of the path
/// after the root; a free block is taken and marked as the end of its
/// chain; the name (the last path part) must have at most fifteen bytes;
/// an item with that name and the new block is put into the parent.
pub open spec fn spec_add_directory_bytes(p: TianMuParams, root: Seq<u8>, path: Seq<u8>, img: Seq<u8>) -> Result<
    Seq<u8>,
    MakeError,
> {
    match after_first(path, root) {
        None => Err(MakeError::RootNotInPath),
        Some(rel) => match spec_find_dir_addr(p, img, rel) {
            Err(e) => Err(e),
            Ok(addr) => match spec_find_free(p, img, 1) {
                Err(e) => Err(e),
                Ok(bl) => {
                    let filled = spec_fill(p, img, bl);
                    let name = last_name(path);
                    if name.len() > 15 {
                        Err(MakeError::NameTooLong)
                    } else {
                        spec_add_dir_item(
                            p,
                            filled,
                            (addr / p.block_size) as usize,
                            DirEntryView {
                                name: name_field(name),
                                attr: ATTR_DIRECTORY,
                                start_block: bl[0] as u64,
                                length: 0,
                            },
                        )
                    }
                },
            },
        },
    }
}

/// Whether the text of a name field, as `slice_to_string` gives it, is the
/// text whose UTF-8 bytes are `name`.
fn name_is(field: &[u8], name: &[u8]) -> (r: bool)
    ensures
        r == name_matches(field@, name@),
{
    let iname = slice_to_string(field);
    let b = iname.as_str().as_bytes();
    assert(b@ == encode_utf8(latin1(until_nul(field@))));
    if b.len() != name.len() {
        assert(b@.len() != name@.len());
        return false;
    }
    let mut i: usize = 0;
    while i < b.len()
        invariant
            b@ == encode_utf8(latin1(until_nul(field@))),
            b@.len() == name@.len(),
            i <= b@.len(),
            forall|k: int| 0 <= k < i ==> b@[k] == name@[k],
        decreases b@.len() - i,
    {
        if b[i] != name[i] {
            assert(b@[i as int] != name@[i as int]);
            assert(b@ != name@);
            return false;
        }
        i = i + 1;
    }
    assert(b@ =~= name@);
    true
}

impl TianMu {
    /// Finds the byte offset of the directory that holds the path `rel`,
    /// relative to the root (see `spec_find_dir_addr`).
    fn find_dir_addr(&self, rel: &[u8], image: &Vec<u8>) -> (r: Result<usize, MakeError>)
        ensures
            match spec_find_dir_addr(self@, image@, rel@) {
                Ok(a) => r == Ok::<usize, MakeError>(a),
                Err(e) => r == Err::<usize, MakeError>(e),
            },
    {
        proof {
            use_type_invariant(self);
        }
        let ghost p = self@;
        let mut idx = self.root_offset / self.block_size;
        let mut start: usize = 0;
        let mut i: usize = 0;
        while i < rel.len()
            invariant
                p == self@,
                params_ok(p),
                start <= i,
                i <= rel@.len(),
                walk_dirs(p, image@, root_block(p), dir_segments(rel@)) == walk_dirs(
                    p,
                    image@,
                    idx,
                    segments_from(rel@, start as int, i as int),
                ),
            decreases rel@.len() - i,
        {
            if rel[i] == SLASH {
                let ghost rest = segments_from(rel@, (i + 1) as int, (i + 1) as int);
                let seg = vstd::slice::slice_subrange(rel, start, i);
                let ghost segs = seq![seg@] + rest;
                assert(segments_from(rel@, start as int, i as int) == segs);
                assert(segs[0] == seg@);
                assert(segs.drop_first() =~= rest);
                if seg.len() > 0 {
                    if seg.len() > 15 && seg[15] >= 0x80 && seg[15] <= 0xbf {
                        return Err(MakeError::NameNotCharBoundary);
                    }
                    let key = if seg.len() > 15 {
                        vstd::slice::slice_subrange(seg, 0, 15)
                    } else {
                        seg
                    };
                    let item = match self.get_dir_item(idx, key, image) {
                        Ok(Some(it)) => it,
                        Ok(None) => {
                            return Err(MakeError::DirNotFound);
                        },
                        Err(e) => {
                            return Err(e);
                        },
                    };
                    if item.start_block > usize::MAX as u64 {
                        return Err(MakeError::Overflow);
                    }
                    idx = item.start_block as usize;
                }
                start = i + 1;
            }
            i = i + 1;
        }
        assert(segments_from(rel@, start as int, i as int) =~= Seq::<Seq<u8>>::empty());
        if idx > 0 && self.block_size > usize::MAX / idx {
            assert(idx * p.block_size > usize::MAX) by (nonlinear_arith)
                requires
                    idx > 0,
                    p.block_size > usize::MAX / idx,
            ;
            return Err(MakeError::Overflow);
        }
        assert(idx * p.block_size <= usize::MAX) by (nonlinear_arith)
            requires
                idx == 0 || p.block_size <= usize::MAX / idx,
        ;
        Ok(idx * self.block_size)
    }

    /// Grows the directory that starts at block `idx` (see `spec_expend`).
    fn expend(&self, idx: usize, image: &mut Vec<u8>) -> (r: Result<usize, MakeError>)
        ensures
            match spec_expend(self@, old(image)@, idx) {
                Ok((next, i)) => r == Ok::<usize, MakeError>(next) && final(image)@ == i,
                Err(e) => r == Err::<usize, MakeError>(e),
            },
    {
        proof {
            use_type_invariant(self);
        }
        let ghost p = self@;
        let map = self.block_map_addr;
        if idx > (usize::MAX - map) / 8 {
            return Err(MakeError::Overflow);
        }
        let mut addr = map + idx * 8;
        let mut buf = zero_bytes(8);
        let n = read_into(image, addr, &mut buf);
        if n == 0 {
            return Err(MakeError::ReadPastEnd);
        }
        let mut flag = u64_from_le_bytes(buf.as_slice());
        if flag == 0 {
            return Err(MakeError::FreeChainEntry);
        }
        let mut fuel = image.len();
        let ghost walk = walk_to_end(p, image@, addr as int, flag, buf@, fuel as nat);
        #[verifier::loop_isolation(false)]
        while flag != END
            invariant
                p == self@,
                map == p.block_map_addr,
                buf@.len() == 8,
                walk == walk_to_end(p, image@, addr as int, flag, buf@, fuel as nat),
            decreases fuel,
        {
            if flag > ((usize::MAX - map) / 8) as u64 {
                return Err(MakeError::Overflow);
            }
            let a2 = (flag as usize) * 8 + map;
            if a2 >= image.len() {
                return Err(MakeError::ReadPastEnd);
            }
            if fuel == 0 {
                return Err(MakeError::ChainLoops);
            }
            addr = a2;
            read_into(image, addr, &mut buf);
            flag = u64_from_le_bytes(buf.as_slice());
            fuel = fuel - 1;
        }
        let ghost img0 = image@;
        let free = match self.find_free_block_idx(1, image) {
            Ok(f) => f,
            Err(e) => {
                return Err(e);
            },
        };
        proof {
            lemma_scan_in_range(p, img0, 1, 0, p.block_map_addr as int, zeros(8), Seq::empty());
        }
        let next = free[0];
        if addr > usize::MAX - 8 {
            return Err(MakeError::Overflow);
        }
        let nb = u64_to_le_bytes(next as u64);
        write_bytes(image, addr, nb.as_slice());
        let eb = u64_to_le_bytes(END);
        write_bytes(image, next * 8 + map, eb.as_slice());
        Ok(next)
    }

    /// Puts `item` into the directory that starts at block `dir_idx` (see
    /// `spec_add_dir_item`).
    fn add_dir_item(&self, dir_idx: usize, item: &DirEntry, image: &mut Vec<u8>) -> (r: Result<(), MakeError>)
        ensures
            outcome_matches(spec_add_dir_item(self@, old(image)@, dir_idx, item@), r, final(image)@),
    {
        proof {
            use_type_invariant(self);
        }
        let ghost p = self@;
        let ghost img0 = image@;
        let num = self.block_size / 32;
        let chain = match self.get_block_chain(dir_idx, image) {
            Ok(c) => c,
            Err(e) => {
                return Err(e);
            },
        };
        let len = image.len();
        let data_item = item.encode();
        let mut k: usize = 0;
        assert(chain@.subrange(0, chain@.len() as int) =~= chain@);
        #[verifier::loop_isolation(false)]
        while k < chain.len()
            invariant
                p == self@,
                image@ == img0,
                num == slots_per_block(p),
                len == image@.len(),
                data_item@ == encode_entry(item@),
                k <= chain@.len(),
                spec_chain(p, img0, dir_idx) == Ok::<Seq<usize>, MakeError>(chain@),
                empty_slot_in_blocks(p, img0, chain@) == empty_slot_in_blocks(
                    p,
                    img0,
                    chain@.subrange(k as int, chain@.len() as int),
                ),
            decreases chain@.len() - k,
        {
            let idx = chain[k];
            let ghost rest = chain@.subrange(k as int, chain@.len() as int);
            assert(rest[0] == idx);
            assert(rest.drop_first() =~= chain@.subrange(k + 1, chain@.len() as int));
            if idx > 0 && self.block_size > usize::MAX / idx {
                assert(idx * p.block_size > usize::MAX) by (nonlinear_arith)
                    requires
                        idx > 0,
                        p.block_size > usize::MAX / idx,
                ;
                assert(empty_slot_in_blocks(p, img0, rest) == Err::<Option<int>, MakeError>(MakeError::Overflow));
                return Err(MakeError::Overflow);
            }
            assert(idx * p.block_size <= usize::MAX) by (nonlinear_arith)
                requires
                    idx == 0 || p.block_size <= usize::MAX / idx,
            ;
            let addr = idx * self.block_size;
            let ghost inner = empty_slot(img0, addr as int, 0, num as int, zeros(32));
            assert(empty_slot_in_blocks(p, img0, rest) == match inner {
                Err(e) => Err(e),
                Ok(Some(pos)) => Ok(Some(pos)),
                Ok(None) => empty_slot_in_blocks(p, img0, rest.drop_first()),
            });
            let mut data = zero_bytes(32);
            let mut pos = addr;
            let mut i: usize = 0;
            #[verifier::loop_isolation(false)]
            while i < num
                invariant
                    image@ == img0,
                    len == image@.len(),
                    data@.len() == 32,
                    i <= num,
                    inner == empty_slot(img0, pos as int, i as int, num as int, data@),
                decreases num - i,
            {
                let n = read_into(image, pos, &mut data);
                if n == 0 {
                    return Err(MakeError::ReadPastEnd);
                }
                let t = DirEntry::decode(data.as_slice());
                if t.empty() {
                    if pos > usize::MAX - 32 {
                        return Err(MakeError::Overflow);
                    }
                    write_bytes(image, pos, data_item.as_slice());
                    return Ok(());
                }
                pos = pos + n;
                i = i + 1;
            }
            k = k + 1;
        }
        assert(chain@.subrange(k as int, chain@.len() as int) =~= Seq::<usize>::empty());
        assert(empty_slot_in_blocks(p, img0, chain@) == Ok::<Option<int>, MakeError>(None));
        let next = match self.expend(dir_idx, image) {
            Ok(n) => n,
            Err(e) => {
                return Err(e);
            },
        };
        let ghost grown = image@;
        proof {
            lemma_expend_in_range(p, img0, dir_idx);
        }
        let len = image.len();
        let mut data = zero_bytes(32);
        let mut pos = self.block_map_addr + next * 8 + 8;
        let ghost inner = empty_slot(grown, pos as int, 0, num as int, zeros(32));
        assert(spec_expend(p, img0, dir_idx) == Ok::<(usize, Seq<u8>), MakeError>((next, grown)));
        let mut i: usize = 0;
        #[verifier::loop_isolation(false)]
        while i < num
            invariant
                image@ == grown,
                len == image@.len(),
                data@.len() == 32,
                data_item@ == encode_entry(item@),
                i <= num,
                inner == empty_slot(grown, pos as int, i as int, num as int, data@),
            decreases num - i,
        {
            let n = read_into(image, pos, &mut data);
            if n == 0 {
                return Err(MakeError::ReadPastEnd);
            }
            let t = DirEntry::decode(data.as_slice());
            if t.empty() {
                if pos > usize::MAX - 32 {
                    return Err(MakeError::Overflow);
                }
                write_bytes(image, pos, data_item.as_slice());
                return Ok(());
            }
            pos = pos + n;
            i = i + 1;
        }
        Err(MakeError::DirFull)
    }

    /// Looks up the item named `name` in the directory that starts at
    /// block `dir_idx` (see `spec_get_dir_item`).
    fn get_dir_item(&self, dir_idx: usize, name: &[u8], image: &Vec<u8>) -> (r: Result<Option<DirEntry>, MakeError>)
        ensures
            match spec_get_dir_item(self@, image@, dir_idx, name@) {
                Ok(None) => r matches Ok(None),
                Ok(Some(e)) => r matches Ok(Some(f)) && f@ == e,
                Err(e) => r == Err::<Option<DirEntry>, MakeError>(e),
            },
    {
        let ghost p = self@;
        let num = self.block_size / 32;
        let chain = match self.get_block_chain(dir_idx, image) {
            Ok(c) => c,
            Err(e) => {
                return Err(e);
            },
        };
        let len = image.len();
        let mut k: usize = 0;
        assert(chain@.subrange(0, chain@.len() as int) =~= chain@);
        while k < chain.len()
            invariant
                p == self@,
                num == slots_per_block(p),
                len == image@.len(),
                k <= chain@.len(),
                spec_get_dir_item(p, image@, dir_idx, name@) == search_blocks(
                    p,
                    image@,
                    chain@.subrange(k as int, chain@.len() as int),
                    name@,
                ),
            decreases chain@.len() - k,
        {
            let idx = chain[k];
            let ghost rest = chain@.subrange(k as int, chain@.len() as int);
            assert(rest[0] == idx);
            assert(rest.drop_first() =~= chain@.subrange(k + 1, chain@.len() as int));
            if idx > 0 && self.block_size > usize::MAX / idx {
                assert(idx * p.block_size > usize::MAX) by (nonlinear_arith)
                    requires
                        idx > 0,
                        p.block_size > usize::MAX / idx,
                ;
                return Err(MakeError::Overflow);
            }
            assert(idx * p.block_size <= usize::MAX) by (nonlinear_arith)
                requires
                    idx == 0 || p.block_size <= usize::MAX / idx,
            ;
            let addr = idx * self.block_size;
            let ghost inner = search_slots(image@, addr as int, 0, num as int, zeros(32), name@);
            assert(search_blocks(p, image@, rest, name@) == match inner {
                Err(e) => Err(e),
                Ok(Some(e)) => Ok(Some(e)),
                Ok(None) => search_blocks(p, image@, rest.drop_first(), name@),
            });
            let mut data = zero_bytes(32);
            let mut pos = addr;
            let mut i: usize = 0;
            #[verifier::loop_isolation(false)]
            while i < num
                invariant
                    len == image@.len(),
                    data@.len() == 32,
                    i <= num,
                    search_slots(image@, addr as int, 0, num as int, zeros(32), name@) == search_slots(
                        image@,
                        pos as int,
                        i as int,
                        num as int,
                        data@,
                        name@,
                    ),
                decreases num - i,
            {
                let n = read_into(image, pos, &mut data);
                if n == 0 {
                    return Err(MakeError::ReadPastEnd);
                }
                let item = DirEntry::decode(data.as_slice());
                if name_is(&item.name, name) {
                    return Ok(Some(item));
                }
                pos = pos + n;
                i = i + 1;
            }
            k = k + 1;
        }
        Ok(None)
    }

    /// Lists the blocks of the directory that starts at `st_block` (see
    /// `spec_chain`).
    fn get_block_chain(&self, st_block: usize, image: &Vec<u8>) -> (r: Result<Vec<usize>, MakeError>)
        ensures
            match spec_chain(self@, image@, st_block) {
                Ok(c) => r matches Ok(v) && v@ == c,
                Err(e) => r == Err::<Vec<usize>, MakeError>(e),
            },
    {
        let ghost p = self@;
        let map = self.block_map_addr;
        if st_block > (usize::MAX - map) / 8 {
            return Err(MakeError::Overflow);
        }
        let mut block_chain: Vec<usize> = Vec::new();
        let mut addr = map + st_block * 8;
        block_chain.push(st_block);
        let mut fuel = image.len();
        let ghost addr0 = addr;
        let ghost fuel0 = fuel;
        assert(block_chain@ =~= seq![st_block] + block_chain@.drop_first());
        while addr != 0
            invariant
                p == self@,
                addr0 == map + 8 * st_block,
                fuel0 == image@.len(),
                block_chain@.len() >= 1,
                block_chain@[0] == st_block,
                spec_chain(p, image@, st_block) == prepend(seq![st_block], chain_rest(image@, addr0 as int, fuel0 as nat)),
                chain_rest(image@, addr0 as int, fuel0 as nat) == prepend(
                    block_chain@.drop_first(),
                    chain_rest(image@, addr as int, fuel as nat),
                ),
            decreases fuel,
        {
            if addr >= image.len() {
                return Err(MakeError::ReadPastEnd);
            }
            if fuel == 0 {
                return Err(MakeError::ChainLoops);
            }
            let mut data = zero_bytes(8);
            read_into(image, addr, &mut data);
            let t = u64_from_le_bytes(data.as_slice());
            if t != 0 && t != END {
                if t > (usize::MAX / 8) as u64 {
                    return Err(MakeError::Overflow);
                }
                let ghost before = block_chain@.drop_first();
                block_chain.push(t as usize);
                assert(block_chain@.drop_first() =~= before + seq![t as usize]);
                assert(before + seq![t as usize] + Seq::<usize>::empty() =~= before + seq![t as usize]);
                proof {
                    let r = chain_rest(image@, (t * 8) as int, (fuel - 1) as nat);
                    match r {
                        Ok(s) => {
                            assert(before + (seq![t as usize] + s) =~= (before + seq![t as usize]) + s);
                        },
                        Err(e) => {},
                    }
                }
                addr = (t as usize) * 8;
                fuel = fuel - 1;
            } else {
                assert(block_chain@.drop_first() + Seq::<usize>::empty() =~= block_chain@.drop_first());
                assert(block_chain@ =~= seq![st_block] + block_chain@.drop_first());
                return Ok(block_chain);
            }
        }
        assert(block_chain@.drop_first() + Seq::<usize>::empty() =~= block_chain@.drop_first());
        assert(block_chain@ =~= seq![st_block] + block_chain@.drop_first());
        Ok(block_chain)
    }

    /// Stores a file's contents in free blocks (see `spec_store`) and
    /// returns the first block.
    fn store_file(&self, data: &[u8], image: &mut Vec<u8>) -> (r: Result<usize, MakeError>)
        ensures
            match spec_store(self@, old(image)@, data@) {
                Ok((b, i)) => r == Ok::<usize, MakeError>(b) && final(image)@ == i,
                Err(e) => r == Err::<usize, MakeError>(e),
            },
    {
        proof {
            use_type_invariant(self);
        }
        let ghost p = self@;
        let ghost img0 = image@;
        let bs = self.block_size;
        let size = data.len();
        if size > usize::MAX - bs {
            return Err(MakeError::Overflow);
        }
        let num = (size + bs - 1) / bs;
        let blocks = match self.find_free_block_idx(num, image) {
            Ok(b) => b,
            Err(e) => {
                return Err(e);
            },
        };
        proof {
            lemma_scan_in_range(p, img0, num as int, 0, p.block_map_addr as int, zeros(8), Seq::empty());
        }
        assert(num * bs <= size + bs - 1) by (nonlinear_arith)
            requires
                bs > 0,
                num as int == blocks_for(size as int, bs as int),
        ;
        assert(p.block_num * bs <= p.image_size) by (nonlinear_arith)
            requires
                p.block_num == p.image_size / bs,
                bs > 0,
        ;
        let mut st: usize = 0;
        let mut k: usize = 0;
        while k < blocks.len()
            invariant
                p == self@,
                bs == p.block_size,
                bs > 0,
                size == data@.len(),
                blocks@.len() == num,
                num * bs <= size + bs - 1,
                size + bs <= usize::MAX,
                num as int == blocks_for(size as int, bs as int),
                p.block_num * bs <= p.image_size,
                blocks_in_range(p, blocks@),
                k <= num,
                st == k * bs,
                image@ == spec_write_chunks(p, img0, blocks@, data@, k as int),
            decreases num - k,
        {
            assert(k * bs < size && k * bs + bs <= num * bs) by (nonlinear_arith)
                requires
                    k < num,
                    bs > 0,
                    num as int == blocks_for(size as int, bs as int),
            ;
            let idx = blocks[k];
            assert(idx * bs + bs <= p.block_num * bs) by (nonlinear_arith)
                requires
                    idx < p.block_num,
            ;
            let ed = if st + bs < size { st + bs } else { size };
            let buf = vstd::slice::slice_subrange(data, st, ed);
            let addr = idx * bs;
            write_bytes(image, addr, buf);
            assert(k * bs + bs == (k + 1) * bs) by (nonlinear_arith);
            st = st + bs;
            k = k + 1;
        }
        self.fill_block_map(&blocks, image);
        if blocks.len() == 0 {
            return Err(MakeError::EmptyFile);
        }
        Ok(blocks[0])
    }

    /// Finds `num` free blocks (see `spec_find_free`).
    fn find_free_block_idx(&self, num: usize, image: &Vec<u8>) -> (r: Result<Vec<usize>, MakeError>)
        ensures
            match spec_find_free(self@, image@, num as int) {
                Ok(v) => r matches Ok(w) && w@ == v,
                Err(e) => r == Err::<Vec<usize>, MakeError>(e),
            },
    {
        let ghost p = self@;
        let mut pos = self.block_map_addr;
        let mut rt: Vec<usize> = Vec::new();
        let mut buf = zero_bytes(8);
        let mut i: usize = 0;
        let len = image.len();
        while i < self.block_num
            invariant
                p == self@,
                len == image@.len(),
                i <= p.block_num,
                buf@.len() == 8,
                spec_find_free(p, image@, num as int) == scan_free(
                    p,
                    image@,
                    num as int,
                    i as int,
                    pos as int,
                    buf@,
                    rt@,
                ),
            decreases p.block_num - i,
        {
            let n = read_into(image, pos, &mut buf);
            if n == 0 {
                return Err(MakeError::ReadPastEnd);
            }
            let flag = u64_from_le_bytes(buf.as_slice());
            if flag == 0 {
                rt.push(i);
            }
            if rt.len() == num {
                return Ok(rt);
            }
            pos = pos + n;
            i = i + 1;
        }
        if rt.len() == num {
            Ok(rt)
        } else {
            Err(MakeError::NoFreeBlock)
        }
    }

    /// Links `blocks` into one chain in the block map (see `spec_fill`).
    fn fill_block_map(&self, blocks: &Vec<usize>, image: &mut Vec<u8>)
        requires
            blocks_in_range(self@, blocks@),
        ensures
            final(image)@ == spec_fill(self@, old(image)@, blocks@),
    {
        proof {
            use_type_invariant(self);
        }
        let ghost p = self@;
        let ghost img0 = image@;
        let mut next: u64 = END;
        let mut i = blocks.len();
        assert(blocks@.subrange(i as int, blocks@.len() as int) =~= Seq::<usize>::empty());
        while i > 0
            invariant
                p == self@,
                params_ok(p),
                blocks_in_range(p, blocks@),
                i <= blocks@.len(),
                image@ == spec_fill(p, img0, blocks@.subrange(i as int, blocks@.len() as int)),
                next == next_link(blocks@, i - 1),
            decreases i,
        {
            let idx = blocks[i - 1];
            assert(idx < p.block_num);
            let addr = self.block_map_addr + idx * 8;
            let buf = u64_to_le_bytes(next);
            write_bytes(image, addr, buf.as_slice());
            proof {
                let sub = blocks@.subrange(i - 1, blocks@.len() as int);
                assert(sub.drop_first() =~= blocks@.subrange(i as int, blocks@.len() as int));
                assert(next_link(sub, 0) == next_link(blocks@, i - 1));
            }
            next = idx as u64;
            i = i - 1;
        }
        assert(blocks@.subrange(0, blocks@.len() as int) =~= blocks@);
    }
}

impl TianMu {
    /// Lays out an empty block map (see `spec_init`).
    fn init_map(&self, image: &mut Vec<u8>) -> (r: Result<(), MakeError>)
        ensures
            outcome_matches(spec_init(self@, old(image)@), r, final(image)@),
    {
        proof {
            use_type_invariant(self);
        }
        let ghost p = self@;
        let ghost img0 = image@;
        let bs = self.block_size;
        let bn = self.block_num;
        assert(bn * bs <= self.image_size) by (nonlinear_arith)
            requires
                bn == self.image_size / bs,
                bs > 0,
        ;
        let t = zero_bytes(bs);
        let mut k: usize = 0;
        while k < bn
            invariant
                k <= bn,
                bn == p.block_num,
                bs == p.block_size,
                bs > 0,
                bn * bs <= usize::MAX,
                t@ == zeros(bs as nat),
                image@ == write_at(img0, 0, zeros((k * bs) as nat)),
            decreases bn - k,
        {
            assert(k * bs + bs == (k + 1) * bs && (k + 1) * bs <= bn * bs) by (nonlinear_arith)
                requires
                    k < bn,
            ;
            proof {
                lemma_write_concat(img0, 0, zeros((k * bs) as nat), zeros(bs as nat));
                assert(zeros((k * bs) as nat) + zeros(bs as nat) =~= zeros(((k + 1) * bs) as nat));
            }
            write_bytes(image, k * bs, t.as_slice());
            k = k + 1;
        }
        let ghost cleared = image@;
        let epb = bs / 8;
        if epb == 0 || bn > usize::MAX - epb {
            return Err(MakeError::Overflow);
        }
        assert(((bn + epb - 1) as int) / (epb as int) * (epb as int) <= bn + epb - 1) by (nonlinear_arith)
            requires
                epb > 0,
                bn >= 0,
        ;
        let slots = (bn + epb - 1) / epb * epb;
        let map = self.block_map_addr;
        assert(self.root_offset / bs <= self.root_offset) by (nonlinear_arith)
            requires
                bs > 0,
        ;
        assert(self.root_offset < usize::MAX) by (nonlinear_arith)
            requires
                bs > 0,
                self.root_offset as int == root_offset_for(bs as int, bn as int),
                bn * 8 + 1024 + bs <= usize::MAX,
        ;
        let reserved = self.root_offset / bs + 1;
        if slots > (usize::MAX - map) / 8 || reserved > (usize::MAX - map) / 8 {
            return Err(MakeError::Overflow);
        }
        let z = zero_bytes(8);
        let mut k: usize = 0;
        while k < slots
            invariant
                k <= slots,
                map == p.block_map_addr,
                map + 8 * slots <= usize::MAX,
                z@ == zeros(8),
                image@ == write_at(cleared, map as int, zeros((8 * k) as nat)),
            decreases slots - k,
        {
            proof {
                lemma_write_concat(cleared, map as int, zeros((8 * k) as nat), zeros(8));
                assert(zeros((8 * k) as nat) + zeros(8) =~= zeros((8 * (k + 1)) as nat));
            }
            write_bytes(image, map + 8 * k, z.as_slice());
            k = k + 1;
        }
        let ghost mapped = image@;
        let f: Vec<u8> = vec![0xffu8, 0xff, 0xff, 0xff, 0xff, 0xff, 0xff, 0xff];
        assert(f@ =~= ones(8));
        let mut k: usize = 0;
        while k < reserved
            invariant
                k <= reserved,
                map == p.block_map_addr,
                map + 8 * reserved <= usize::MAX,
                f@ == ones(8),
                image@ == write_at(mapped, map as int, ones((8 * k) as nat)),
            decreases reserved - k,
        {
            proof {
                lemma_write_concat(mapped, map as int, ones((8 * k) as nat), ones(8));
                assert(ones((8 * k) as nat) + ones(8) =~= ones((8 * (k + 1)) as nat));
            }
            write_bytes(image, map + 8 * k, f.as_slice());
            k = k + 1;
        }
        Ok(())
    }

    /// Writes the super block region at the start of the image.
    fn write_super_block(&self, image: &mut Vec<u8>)
        ensures
            final(image)@ == spec_super_block(self@, old(image)@),
    {
        let ghost img0 = image@;
        proof {
            lemma_auto_spec_u64_to_from_le_bytes();
        }
        let sp = new_super_block(self.block_size, self.block_num, self.block_map_addr, self.root_offset);
        let data = encode_super_block(&sp);
        assert(data@ =~= super_block_bytes(self@));
        write_bytes(image, 0, data.as_slice());
        let v = zero_bytes(512 - SUPER_BLOCK_SIZE);
        write_bytes(image, SUPER_BLOCK_SIZE, v.as_slice());
        let magic = u64_to_le_bytes(tianmu_magic());
        write_bytes(image, 512, magic.as_slice());
        let w = zero_bytes(1024 - 520);
        write_bytes(image, 520, w.as_slice());
        proof {
            let a = super_block_bytes(self@);
            let b = zeros(464);
            let c = spec_u64_to_le_bytes(0x2333);
            let d = zeros(504);
            lemma_write_concat(img0, 0, a, b);
            assert(a + b + c =~= a + (b + c));
            lemma_write_concat(img0, 0, a + b, c);
            lemma_write_concat(img0, 0, a + b + c, d);
        }
    }

    #[verifier::type_invariant]
    closed spec fn inv(self) -> bool {
        params_ok(self@)
    }

    /// The format for blocks of `block_size` bytes in an image of
    /// `image_size` bytes: as many whole blocks as fit, the block map at byte
    /// 1024, the root directory at the first block boundary after the map.
    pub fn new(block_size: usize, image_size: usize) -> (r: TianMu)
        requires
            block_size > 0,
            (image_size / block_size) * 8 + 1024 + block_size <= usize::MAX,
        ensures
            r@ == (TianMuParams {
                block_size,
                image_size,
                block_map_addr: 1024,
                root_offset: root_offset_for(block_size as int, (image_size / block_size) as int) as usize,
                block_num: image_size / block_size,
            }),
    {
        let block_num = image_size / block_size;
        assert(block_num * 8 + 1024 + block_size <= usize::MAX);
        let top = block_num * 8 + 1024 + block_size - 1;
        assert((top / block_size) * block_size <= top) by (nonlinear_arith)
            requires
                block_size > 0,
                top >= 0,
        ;
        let root_offset = top / block_size * block_size;
        TianMu { block_size, image_size, block_map_addr: 1024, root_offset, block_num }
    }

    /// The block size in bytes. Every format meets the layout relations
    /// `params_ok`, which each getter states.
    pub fn block_size(&self) -> (r: usize)
        ensures
            r == self@.block_size,
            params_ok(self@),
    {
        proof {
            use_type_invariant(self);
        }
        self.block_size
    }

    /// The number of blocks.
    pub fn block_num(&self) -> (r: usize)
        ensures
            r == self@.block_num,
            params_ok(self@),
    {
        proof {
            use_type_invariant(self);
        }
        self.block_num
    }

    /// The offset of the block map.
    pub fn block_map_addr(&self) -> (r: usize)
        ensures
            r == self@.block_map_addr,
            params_ok(self@),
    {
        proof {
            use_type_invariant(self);
        }
        self.block_map_addr
    }

    /// The offset of the root directory.
    pub fn root_offset(&self) -> (r: usize)
        ensures
            r == self@.root_offset,
            params_ok(self@),
    {
        proof {
            use_type_invariant(self);
        }
        self.root_offset
    }
}

impl MakeSystem for TianMu {
    open spec fn spec_add_directory(&self, root_path: Seq<char>, path: Seq<char>, image: Seq<u8>) -> Result<Seq<u8>, MakeError> {
        spec_add_directory_bytes(self@, encode_utf8(root_path), encode_utf8(path), image)
    }

    open spec fn spec_add_file(&self, root_path: Seq<char>, path: Seq<char>, content: Seq<u8>, image: Seq<u8>) -> Result<Seq<u8>, MakeError> {
        spec_add_file_bytes(self@, encode_utf8(root_path), encode_utf8(path), content, image)
    }

    open spec fn spec_make_super_block(&self, image: Seq<u8>) -> Result<Seq<u8>, MakeError> {
        Ok(spec_super_block(self@, image))
    }

    open spec fn spec_init_block_map(&self, image: Seq<u8>) -> Result<Seq<u8>, MakeError> {
        spec_init(self@, image)
    }

    /// Adds the directory at `path` (see `spec_add_directory_bytes`).
    fn add_directory(&self, root_path: &String, path: &String, image: &mut Vec<u8>) -> (r: Result<(), MakeError>) {
        proof {
            use_type_invariant(self);
        }
        let dirname = last_name_string(path);
        let rel = match split_after_first(path.as_str().as_bytes(), root_path.as_str().as_bytes()) {
            Some(v) => v,
            None => {
                return Err(MakeError::RootNotInPath);
            },
        };
        let addr = match self.find_dir_addr(rel.as_slice(), image) {
            Ok(a) => a,
            Err(e) => {
                return Err(e);
            },
        };
        let dir_idx = addr / self.block_size;
        let ghost img0 = image@;
        let blocks = match self.find_free_block_idx(1, image) {
            Ok(b) => b,
            Err(e) => {
                return Err(e);
            },
        };
        proof {
            lemma_scan_in_range(self@, img0, 1, 0, self@.block_map_addr as int, zeros(8), Seq::empty());
        }
        self.fill_block_map(&blocks, image);
        if dirname.as_str().as_bytes().len() > 15 {
            return Err(MakeError::NameTooLong);
        }
        let item = new_dir_item(&dirname, blocks[0], 0);
        self.add_dir_item(dir_idx, &item, image)
    }

    /// Adds the file at `path` with contents `content` (see
    /// `spec_add_file_bytes`).
    fn add_file(&self, root_path: &String, path: &String, content: &Vec<u8>, image: &mut Vec<u8>) -> (r: Result<(), MakeError>) {
        proof {
            use_type_invariant(self);
        }
        let filename = last_name_string(path);
        let size = content.len();
        let start = match self.store_file(content.as_slice(), image) {
            Ok(s) => s,
            Err(e) => {
                return Err(e);
            },
        };
        let rel = match split_after_first(path.as_str().as_bytes(), root_path.as_str().as_bytes()) {
            Some(v) => v,
            None => {
                return Err(MakeError::RootNotInPath);
            },
        };
        let addr = match self.find_dir_addr(rel.as_slice(), image) {
            Ok(a) => a,
            Err(e) => {
                return Err(e);
            },
        };
        let dir_idx = addr / self.block_size;
        let item = new_file_item(&filename, start, size);
        self.add_dir_item(dir_idx, &item, image)
    }

    /// Writes the super block (see `spec_super_block`).
    fn make_super_block(&self, image: &mut Vec<u8>) -> (r: Result<(), MakeError>) {
        self.write_super_block(image);
        Ok(())
    }

    /// Lays out an empty block map (see `spec_init`).
    fn init_block_map(&self, image: &mut Vec<u8>) -> (r: Result<(), MakeError>) {
        self.init_map(image)
    }
}

} // verus!
