//! Laws of directories: adding an item and looking it up, also through
//! adding a file or a directory.
use vstd::prelude::*;
use vstd::bytes::spec_u64_from_le_bytes;
use crate::image::{write_at, read_over, u64_at, zeros};
use crate::tianmu::{TianMuParams, params_ok, spec_fill, next_link, blocks_in_range, END,
    root_block, root_offset_for, slots_per_block, empty_slot, empty_slot_in_blocks, search_slots,
    search_blocks, spec_chain, chain_rest, spec_add_dir_item, spec_get_dir_item, spec_find_free,
    reserved_blocks, spec_store, chunk, blocks_for, walk_dirs, walk_step, spec_find_dir_addr,
    spec_add_file_bytes, spec_add_directory_bytes};
use crate::entry::{DirEntryView, encode_entry, decode_entry, name_matches, lemma_decode_encode,
    name_field, ATTR_FILE, ATTR_DIRECTORY};
use crate::path::SLASH;
use crate::require::MakeError;
use crate::laws::bytes::{lemma_full_read, same_bytes};
use crate::laws::block_map::{distinct, in_entry_of, lemma_fill_links, is_free, free_blocks_below,
    lemma_find_free_takes_first_free, lemma_root_past_map};
use crate::laws::contents::{lemma_chunk_fits, lemma_stored_contents_read_back,
    lemma_store_keeps_root};
use crate::laws::names::{lemma_plain_name_matches, plain_part, lemma_path_under_root};

verus! {

/// A directory block past the block map: its map entry lies before it, and
/// its slots fit inside it.
pub(crate) proof fn lemma_dir_block_past_map(p: TianMuParams, d: usize)
    requires
        params_ok(p),
        root_block(p) <= d < p.block_num,
    ensures
        p.block_map_addr + 8 * d + 8 <= d * p.block_size,
        32 * slots_per_block(p) <= p.block_size,
{
    let bs = p.block_size as int;
    let bn = p.block_num as int;
    let q = (bn * 8 + 1024 + bs - 1) / bs;
    assert(q * bs >= bn * 8 + 1024) by (nonlinear_arith)
        requires
            bs > 0,
            q == (bn * 8 + 1024 + bs - 1) / bs,
    {
        assert(bn * 8 + 1024 + bs - 1 < q * bs + bs);
    }
    assert(root_offset_for(bs, bn) == q * bs);
    assert((q * bs) / bs == q) by (nonlinear_arith)
        requires
            bs > 0,
    ;
    assert(root_block(p) == q);
    assert(q * bs <= d * bs) by (nonlinear_arith)
        requires
            q <= d,
            bs > 0,
    ;
    assert(32 * (bs / 32) <= bs) by (nonlinear_arith)
        requires
            bs > 0,
    ;
}

/// A block whose slots lie inside the image and that has a free slot at
/// or after slot `j` yields the first such slot, `m`.
pub(crate) proof fn lemma_free_slot_found(img: Seq<u8>, base: int, j: int, num: int, buf: Seq<u8>) -> (m: int)
    requires
        0 <= base,
        0 <= j <= num,
        base + 32 * num <= img.len(),
        buf.len() == 32,
        exists|k: int| j <= k < num && #[trigger] img[base + 32 * k + 15] == 0,
    ensures
        j <= m < num,
        img[base + 32 * m + 15] == 0,
        forall|k: int| j <= k < m ==> #[trigger] img[base + 32 * k + 15] != 0,
        empty_slot(img, base + 32 * j, j, num, buf) == Ok::<Option<int>, MakeError>(Some(base + 32 * m)),
    decreases num - j,
{
    let pos = base + 32 * j;
    let k0 = choose|k: int| j <= k < num && #[trigger] img[base + 32 * k + 15] == 0;
    lemma_full_read(img, pos, buf);
    let b2 = read_over(img, pos, buf);
    assert(b2[15] == img[pos + 15]);
    if decode_entry(b2).attr != 0 {
        assert(k0 != j);
        assert(img[base + 32 * k0 + 15] == 0);
        assert(base + 32 * (j + 1) == pos + 32);
        lemma_free_slot_found(img, base, j + 1, num, b2)
    } else {
        j
    }
}

/// Adding an item to a one-block directory past the block map that has a
/// free slot stores it in the directory's first free slot, `m`.
pub(crate) proof fn lemma_add_slot(p: TianMuParams, img: Seq<u8>, d: usize, item: DirEntryView) -> (m: int)
    requires
        params_ok(p),
        img.len() <= usize::MAX,
        root_block(p) <= d < p.block_num,
        (d + 1) * p.block_size <= img.len(),
        u64_at(img, p.block_map_addr + 8 * d) == END,
        exists|k: int|
            0 <= k < slots_per_block(p) && #[trigger] img[d * p.block_size + 32 * k + 15] == 0,
    ensures
        0 <= m < slots_per_block(p),
        img[d * p.block_size + 32 * m + 15] == 0,
        forall|k: int| 0 <= k < m ==> #[trigger] img[d * p.block_size + 32 * k + 15] != 0,
        d * p.block_size + 32 * slots_per_block(p) <= img.len(),
        spec_chain(p, img, d) == Ok::<Seq<usize>, MakeError>(seq![d]),
        empty_slot(img, d * p.block_size, 0, slots_per_block(p), zeros(32)) == Ok::<Option<int>, MakeError>(
            Some(d * p.block_size + 32 * m),
        ),
        spec_add_dir_item(p, img, d, item) == Ok::<Seq<u8>, MakeError>(
            write_at(img, d * p.block_size + 32 * m, encode_entry(item)),
        ),
{
    lemma_dir_block_past_map(p, d);
    let bs = p.block_size as int;
    let num = slots_per_block(p);
    let base = d * bs;
    assert(base + bs == (d + 1) * bs) by (nonlinear_arith)
        requires
            base == d * bs,
    ;
    lemma_single_block_chain(p, img, d);
    assert(seq![d].drop_first() =~= Seq::<usize>::empty());
    assert(base + 32 * 0 == base);
    let m = lemma_free_slot_found(img, base, 0, num, zeros(32));
    assert(empty_slot_in_blocks(p, img, seq![d]) == Ok::<Option<int>, MakeError>(Some(base + 32 * m)));
    m
}

/// In a block whose slots lie inside the image, where no slot from `j` on
/// holds `name` and a free slot is found at `t`: storing `item` (named
/// `name`) at `t` makes the search from `j` find `item`.
pub(crate) proof fn lemma_store_then_search(
    img: Seq<u8>,
    base: int,
    j: int,
    num: int,
    buf1: Seq<u8>,
    buf2: Seq<u8>,
    buf3: Seq<u8>,
    name: Seq<u8>,
    item: DirEntryView,
    t: int,
)
    requires
        0 <= base,
        0 <= j <= num,
        base + 32 * num <= img.len(),
        buf1.len() == 32,
        buf2.len() == 32,
        buf3.len() == 32,
        empty_slot(img, base + 32 * j, j, num, buf1) == Ok::<Option<int>, MakeError>(Some(t)),
        search_slots(img, base + 32 * j, j, num, buf2, name) == Ok::<
            Option<DirEntryView>,
            MakeError,
        >(None),
        item.name.len() == 15,
        name_matches(item.name, name),
    ensures
        base + 32 * j <= t,
        t + 32 <= base + 32 * num,
        search_slots(write_at(img, t, encode_entry(item)), base + 32 * j, j, num, buf3, name) == Ok::<
            Option<DirEntryView>,
            MakeError,
        >(Some(item)),
    decreases num - j,
{
    let pos = base + 32 * j;
    lemma_full_read(img, pos, buf1);
    lemma_full_read(img, pos, buf2);
    lemma_decode_encode(item);
    let b1 = read_over(img, pos, buf1);
    let img2 = write_at(img, t, encode_entry(item));
    if decode_entry(b1).attr == 0 {
        assert(t == pos);
        assert(img2.len() == img.len());
        lemma_full_read(img2, pos, buf3);
        assert(img2.subrange(pos, pos + 32) =~= encode_entry(item));
    } else {
        assert(base + 32 * (j + 1) == pos + 32);
        assert(!name_matches(decode_entry(b1).name, name));
        lemma_store_then_search(img, base, j + 1, num, b1, b1, read_over(img2, pos, buf3), name, item, t);
        assert(img2.len() == img.len());
        lemma_full_read(img2, pos, buf3);
        assert(img2.subrange(pos, pos + 32) =~= img.subrange(pos, pos + 32));
    }
}

/// What a directory holds once an item is added: in a directory of one
/// block (its map entry is `END`) that lies past the block map inside the
/// image, has a free slot, and holds no item named `name`, adding an item
/// named `name` succeeds by storing it in one slot of the directory's
/// block, changing nothing else, and looking `name` up afterwards finds
/// that item.
pub proof fn lemma_added_item_is_found(
    p: TianMuParams,
    img: Seq<u8>,
    d: usize,
    item: DirEntryView,
    name: Seq<u8>,
)
    requires
        params_ok(p),
        img.len() <= usize::MAX,
        root_block(p) <= d < p.block_num,
        (d + 1) * p.block_size <= img.len(),
        u64_at(img, p.block_map_addr + 8 * d) == END,
        exists|k: int|
            0 <= k < slots_per_block(p) && #[trigger] img[d * p.block_size + 32 * k + 15] == 0,
        spec_get_dir_item(p, img, d, name) == Ok::<Option<DirEntryView>, MakeError>(None),
        item.name.len() == 15,
        name_matches(item.name, name),
    ensures
        spec_add_dir_item(p, img, d, item) is Ok,
        exists|t: int|
            d * p.block_size <= t && t + 32 <= d * p.block_size + p.block_size && spec_add_dir_item(
                p,
                img,
                d,
                item,
            )->Ok_0 == #[trigger] write_at(img, t, encode_entry(item)),
        spec_get_dir_item(p, spec_add_dir_item(p, img, d, item)->Ok_0, d, name) == Ok::<
            Option<DirEntryView>,
            MakeError,
        >(Some(item)),
{
    lemma_dir_block_past_map(p, d);
    let bs = p.block_size as int;
    let num = slots_per_block(p);
    let base = d * bs;
    let a = p.block_map_addr + 8 * d;
    let m = lemma_add_slot(p, img, d, item);
    let t = base + 32 * m;
    // The name is not in the block.
    assert(seq![d].drop_first() =~= Seq::<usize>::empty());
    assert(base + 32 * 0 == base);
    assert(search_slots(img, base, 0, num, zeros(32), name) == Ok::<
        Option<DirEntryView>,
        MakeError,
    >(None));
    lemma_store_then_search(img, base, 0, num, zeros(32), zeros(32), zeros(32), name, item, t);
    lemma_decode_encode(item);
    let img2 = write_at(img, t, encode_entry(item));
    // The map entry of the directory is untouched, so its chain is unchanged.
    assert(img2.len() == img.len());
    assert(img2.subrange(a, a + 8) =~= img.subrange(a, a + 8));
    lemma_single_block_chain(p, img2, d);
    assert(search_blocks(p, img2, seq![d], name) == Ok::<
        Option<DirEntryView>,
        MakeError,
    >(Some(item)));
}

/// The search of a block's slots reads only the slots' bytes.
pub(crate) proof fn lemma_search_frame(
    img: Seq<u8>,
    img2: Seq<u8>,
    base: int,
    j: int,
    num: int,
    buf: Seq<u8>,
    name: Seq<u8>,
)
    requires
        0 <= base,
        0 <= j <= num,
        base + 32 * num <= img.len(),
        base + 32 * num <= img2.len(),
        same_bytes(img, img2, base + 32 * j, base + 32 * num),
        buf.len() == 32,
    ensures
        search_slots(img2, base + 32 * j, j, num, buf, name) == search_slots(img, base + 32 * j, j, num, buf, name),
    decreases num - j,
{
    if j < num {
        let pos = base + 32 * j;
        lemma_full_read(img, pos, buf);
        lemma_full_read(img2, pos, buf);
        assert(img.subrange(pos, pos + 32) =~= img2.subrange(pos, pos + 32));
        assert(base + 32 * (j + 1) == pos + 32);
        lemma_search_frame(img, img2, base, j + 1, num, read_over(img, pos, buf), name);
    }
}

/// A directory whose map entry is `END` and lies inside the image has its
/// one block as its chain.
pub(crate) proof fn lemma_single_block_chain(p: TianMuParams, img: Seq<u8>, d: usize)
    requires
        params_ok(p),
        d < p.block_num,
        p.block_map_addr + 8 * d + 8 <= img.len(),
        u64_at(img, p.block_map_addr + 8 * d) == END,
    ensures
        spec_chain(p, img, d) == Ok::<Seq<usize>, MakeError>(seq![d]),
{
    let a = p.block_map_addr + 8 * d;
    lemma_full_read(img, a, zeros(8));
    assert(chain_rest(img, a, img.len()) == Ok::<Seq<usize>, MakeError>(Seq::empty()));
    assert(seq![d] + Seq::<usize>::empty() =~= seq![d]);
}

/// A one-block directory past the block map reads the same in two images
/// that agree on its block and its map entry.
pub(crate) proof fn lemma_dir_frame(p: TianMuParams, img: Seq<u8>, img2: Seq<u8>, d: usize, name: Seq<u8>)
    requires
        params_ok(p),
        root_block(p) <= d < p.block_num,
        (d + 1) * p.block_size <= img.len(),
        img2.len() == img.len(),
        same_bytes(img, img2, d * p.block_size, d * p.block_size + p.block_size),
        same_bytes(img, img2, p.block_map_addr + 8 * d, p.block_map_addr + 8 * d + 8),
        u64_at(img, p.block_map_addr + 8 * d) == END,
    ensures
        u64_at(img2, p.block_map_addr + 8 * d) == END,
        spec_get_dir_item(p, img2, d, name) == spec_get_dir_item(p, img, d, name),
{
    lemma_dir_block_past_map(p, d);
    let bs = p.block_size as int;
    let base = d * bs;
    let a = p.block_map_addr + 8 * d;
    let num = slots_per_block(p);
    assert(base + bs == (d + 1) * bs) by (nonlinear_arith)
        requires
            base == d * bs,
    ;
    assert(img2.subrange(a, a + 8) =~= img.subrange(a, a + 8));
    lemma_single_block_chain(p, img, d);
    lemma_single_block_chain(p, img2, d);
    assert(base + 32 * 0 == base);
    lemma_search_frame(img, img2, base, 0, num, zeros(32), name);
    assert(seq![d].drop_first() =~= Seq::<usize>::empty());
    assert(search_blocks(p, img, Seq::<usize>::empty(), name) == search_blocks(p, img2, Seq::<usize>::empty(), name));
    assert(search_blocks(p, img, seq![d], name) == search_blocks(p, img2, seq![d], name));
}

/// The directory that holds `/name` is the root directory.
pub(crate) proof fn lemma_find_root(p: TianMuParams, img: Seq<u8>, name: Seq<u8>)
    requires
        params_ok(p),
        plain_part(name),
    ensures
        spec_find_dir_addr(p, img, seq![SLASH] + name) == Ok::<usize, MakeError>(
            p.root_offset,
        ),
        p.root_offset / p.block_size == root_block(p),
{
    lemma_path_under_root(Seq::empty(), name);
    lemma_root_past_map(p);
    let segs = seq![Seq::<u8>::empty()];
    assert(walk_step(p, img, root_block(p), segs[0]) == Ok::<usize, MakeError>(root_block(p)));
    assert(segs.drop_first() =~= Seq::<Seq<u8>>::empty());
    assert(walk_dirs(p, img, root_block(p), segs.drop_first()) == Ok::<usize, MakeError>(
        root_block(p),
    ));
    assert(walk_dirs(p, img, root_block(p), segs) == Ok::<usize, MakeError>(root_block(p)));
}

/// What adding a file directly under the root leaves: in an image laid
/// out over all its blocks, whose reserved blocks are marked used, whose
/// root directory is one block with a free slot and no item named `name`,
/// adding the file `root/name` (a plain name of at most fifteen bytes, not
/// empty, with enough free blocks for its contents) succeeds; looking
/// `name` up in the root directory then finds a file item with the first
/// block of its contents and their length; the contents read back piece by
/// piece from the first free blocks, which are linked into one chain.
#[verifier::spinoff_prover]
pub proof fn lemma_added_file_is_found(
    p: TianMuParams,
    img: Seq<u8>,
    root: Seq<u8>,
    name: Seq<u8>,
    content: Seq<u8>,
)
    requires
        params_ok(p),
        p.block_num * p.block_size <= img.len() <= usize::MAX,
        img.len() >= p.block_map_addr + 8 * p.block_num,
        forall|b: int| 0 <= b < reserved_blocks(p) ==> !#[trigger] is_free(p, img, b),
        u64_at(img, p.block_map_addr + 8 * root_block(p)) == END,
        exists|k: int|
            0 <= k < slots_per_block(p) && #[trigger] img[root_block(p) * p.block_size + 32 * k + 15] == 0,
        spec_get_dir_item(p, img, root_block(p), name) == Ok::<
            Option<DirEntryView>,
            MakeError,
        >(None),
        plain_part(name),
        name.len() <= 15,
        content.len() > 0,
        content.len() + p.block_size <= usize::MAX,
        free_blocks_below(p, img, p.block_num as nat).len() >= blocks_for(
            content.len() as int,
            p.block_size as int,
        ),
    ensures
        ({
            let num = blocks_for(content.len() as int, p.block_size as int);
            let blocks = spec_find_free(p, img, num)->Ok_0;
            let path = root + seq![SLASH] + name;
            let img3 = spec_add_file_bytes(p, root, path, content, img)->Ok_0;
            &&& spec_add_file_bytes(p, root, path, content, img) is Ok
            &&& spec_get_dir_item(p, img3, root_block(p), name) == Ok::<
                Option<DirEntryView>,
                MakeError,
            >(
                Some(
                    DirEntryView {
                        name: name_field(name),
                        attr: ATTR_FILE,
                        start_block: blocks[0] as u64,
                        length: content.len() as u64,
                    },
                ),
            )
            &&& forall|k: int|
                0 <= k < num ==> img3.subrange(
                    blocks[k] * p.block_size,
                    blocks[k] * p.block_size + chunk(content, p.block_size as int, k).len(),
                ) == #[trigger] chunk(content, p.block_size as int, k)
            &&& forall|k: int|
                0 <= k < num ==> u64_at(img3, p.block_map_addr + 8 * blocks[k]) == #[trigger] next_link(
                    blocks,
                    k,
                )
        }),
{
    let bs = p.block_size as int;
    let num = blocks_for(content.len() as int, bs);
    let rb = root_block(p);
    let path = root + seq![SLASH] + name;
    let rel = seq![SLASH] + name;
    assert(num >= 1) by (nonlinear_arith)
        requires
            num == (content.len() + bs - 1) / bs,
            content.len() >= 1,
            bs > 0,
    {
        assert(content.len() + bs - 1 >= bs);
    }
    lemma_find_free_takes_first_free(p, img, num);
    let blocks = spec_find_free(p, img, num)->Ok_0;
    assert(spec_store(p, img, content) is Ok);
    let stored = spec_store(p, img, content)->Ok_0.1;
    assert(spec_store(p, img, content)->Ok_0.0 == blocks[0]);
    lemma_stored_contents_read_back(p, img, content);
    lemma_store_keeps_root(p, img, content);
    lemma_root_past_map(p);
    // The root directory's block lies before the blocks taken.
    let b0 = blocks[0] as int;
    if b0 < reserved_blocks(p) {
        assert(!is_free(p, img, b0));
        assert(false);
    }
    assert(rb < p.block_num);
    assert((rb + 1) * bs <= p.block_num * bs) by (nonlinear_arith)
        requires
            rb < p.block_num,
            bs > 0,
    ;
    lemma_dir_frame(p, img, stored, rb, name);
    assert(exists|k: int|
        0 <= k < slots_per_block(p) && #[trigger] stored[rb * p.block_size + 32 * k + 15] == 0) by {
        let k = choose|k: int|
            0 <= k < slots_per_block(p) && #[trigger] img[rb * p.block_size + 32 * k + 15] == 0;
        lemma_dir_block_past_map(p, rb);
        assert(32 * k + 32 <= 32 * slots_per_block(p));
        assert(stored[rb * p.block_size + 32 * k + 15] == img[rb * p.block_size + 32 * k + 15]);
    }
    lemma_path_under_root(root, name);
    lemma_find_root(p, stored, name);
    lemma_plain_name_matches(name);
    let item = DirEntryView {
        name: name_field(name),
        attr: ATTR_FILE,
        start_block: blocks[0] as u64,
        length: content.len() as u64,
    };
    assert(spec_add_file_bytes(p, root, path, content, img) == spec_add_dir_item(p, stored, rb, item));
    lemma_added_item_is_found(p, stored, rb, item, name);
    let img3 = spec_add_dir_item(p, stored, rb, item)->Ok_0;
    let t = choose|t: int|
        rb * bs <= t && t + 32 <= rb * bs + bs && img3 == #[trigger] write_at(stored, t, encode_entry(item));
    lemma_decode_encode(item);
    assert(rb * bs + bs == (rb + 1) * bs) by (nonlinear_arith);
    assert forall|k: int| 0 <= k < num implies img3.subrange(
        blocks[k] * bs,
        blocks[k] * bs + chunk(content, bs, k).len(),
    ) == #[trigger] chunk(content, bs, k) by {
        lemma_chunk_fits(content, bs, k);
        let bk = blocks[k] as int;
        assert(bk >= reserved_blocks(p)) by {
            if bk < reserved_blocks(p) {
                assert(!is_free(p, img, bk));
            }
        }
        assert((rb + 1) * bs <= bk * bs) by (nonlinear_arith)
            requires
                rb + 1 <= bk,
                bs > 0,
        ;
        assert(bk < p.block_num);
        assert(bk * bs + bs <= p.block_num * bs) by (nonlinear_arith)
            requires
                bk < p.block_num,
                bs > 0,
        ;
        assert(img3.len() == stored.len());
        assert(img3.subrange(bk * bs, bk * bs + chunk(content, bs, k).len()) =~= stored.subrange(
            bk * bs,
            bk * bs + chunk(content, bs, k).len(),
        ));
    }
    assert forall|k: int| 0 <= k < num implies u64_at(img3, p.block_map_addr + 8 * blocks[k])
        == #[trigger] next_link(blocks, k) by {
        let a = p.block_map_addr + 8 * blocks[k];
        assert(img3.subrange(a, a + 8) =~= stored.subrange(a, a + 8));
    }
}

/// What adding a directory directly under the root leaves: in an image
/// that holds the block map, whose reserved blocks are marked used, whose
/// root directory is one block inside the image with a free slot and no
/// item named `name`, adding the directory `root/name` (a plain name of at
/// most fifteen bytes) succeeds when a block is free; looking `name` up in
/// the root directory then finds a directory item whose first block is the
/// first free block, and that block's map entry marks it as a chain of one
/// block.
#[verifier::spinoff_prover]
pub proof fn lemma_added_directory_is_found(p: TianMuParams, img: Seq<u8>, root: Seq<u8>, name: Seq<u8>)
    requires
        params_ok(p),
        img.len() <= usize::MAX,
        img.len() >= p.block_map_addr + 8 * p.block_num,
        (root_block(p) + 1) * p.block_size <= img.len(),
        forall|b: int| 0 <= b < reserved_blocks(p) ==> !#[trigger] is_free(p, img, b),
        u64_at(img, p.block_map_addr + 8 * root_block(p)) == END,
        exists|k: int|
            0 <= k < slots_per_block(p) && #[trigger] img[root_block(p) * p.block_size + 32 * k + 15] == 0,
        spec_get_dir_item(p, img, root_block(p), name) == Ok::<
            Option<DirEntryView>,
            MakeError,
        >(None),
        plain_part(name),
        name.len() <= 15,
        free_blocks_below(p, img, p.block_num as nat).len() >= 1,
    ensures
        ({
            let b = spec_find_free(p, img, 1)->Ok_0[0];
            let path = root + seq![SLASH] + name;
            let img3 = spec_add_directory_bytes(p, root, path, img)->Ok_0;
            &&& spec_add_directory_bytes(p, root, path, img) is Ok
            &&& spec_get_dir_item(p, img3, root_block(p), name) == Ok::<
                Option<DirEntryView>,
                MakeError,
            >(Some(DirEntryView { name: name_field(name), attr: ATTR_DIRECTORY, start_block: b as u64, length: 0 }))
            &&& u64_at(img3, p.block_map_addr + 8 * b) == END
        }),
{
    let bs = p.block_size as int;
    let rb = root_block(p);
    let path = root + seq![SLASH] + name;
    lemma_find_free_takes_first_free(p, img, 1);
    let bl = spec_find_free(p, img, 1)->Ok_0;
    let b = bl[0];
    let filled = spec_fill(p, img, bl);
    lemma_root_past_map(p);
    if (b as int) < reserved_blocks(p) {
        assert(!is_free(p, img, b as int));
        assert(false);
    }
    assert(rb < p.block_num);
    assert(blocks_in_range(p, bl));
    assert(distinct(bl));
    lemma_fill_links(p, img, bl);
    assert(next_link(bl, 0) == END);
    lemma_dir_block_past_map(p, rb);
    assert(rb * bs + bs == (rb + 1) * bs) by (nonlinear_arith);
    assert forall|i: int|
        (rb * bs <= i < rb * bs + bs || p.block_map_addr + 8 * rb <= i < p.block_map_addr + 8 * rb + 8)
            implies #[trigger] filled[i] == img[i] by {
        if in_entry_of(p, bl, i) {
            let j = choose|j: int|
                0 <= j < bl.len() && p.block_map_addr + 8 * #[trigger] bl[j] <= i < p.block_map_addr + 8
                    * bl[j] + 8;
            assert(j == 0);
            assert(false);
        }
    }
    assert(same_bytes(img, filled, rb * bs, rb * bs + bs));
    assert(same_bytes(img, filled, p.block_map_addr + 8 * rb, p.block_map_addr + 8 * rb + 8));
    lemma_dir_frame(p, img, filled, rb, name);
    assert(exists|k: int|
        0 <= k < slots_per_block(p) && #[trigger] filled[rb * p.block_size + 32 * k + 15] == 0) by {
        let k = choose|k: int|
            0 <= k < slots_per_block(p) && #[trigger] img[rb * p.block_size + 32 * k + 15] == 0;
        assert(32 * k + 32 <= 32 * slots_per_block(p));
        assert(filled[rb * p.block_size + 32 * k + 15] == img[rb * p.block_size + 32 * k + 15]);
    }
    lemma_path_under_root(root, name);
    lemma_find_root(p, img, name);
    lemma_plain_name_matches(name);
    let item = DirEntryView { name: name_field(name), attr: ATTR_DIRECTORY, start_block: b as u64, length: 0 };
    assert(spec_add_directory_bytes(p, root, path, img) == spec_add_dir_item(p, filled, rb, item));
    lemma_added_item_is_found(p, filled, rb, item, name);
    let img3 = spec_add_dir_item(p, filled, rb, item)->Ok_0;
    let t = choose|t: int|
        rb * bs <= t && t + 32 <= rb * bs + bs && img3 == #[trigger] write_at(filled, t, encode_entry(item));
    lemma_decode_encode(item);
    let a = p.block_map_addr + 8 * b;
    assert(img3.subrange(a, a + 8) =~= filled.subrange(a, a + 8));
}

/// In a block whose slots lie inside the image, storing `item` in the
/// free slot `m` leaves the search from slot `j` for another name as it
/// was, when that name does not match `item` and the search found no
/// item or one that is not free.
pub(crate) proof fn lemma_search_after_store(
    img: Seq<u8>,
    base: int,
    j: int,
    num: int,
    buf: Seq<u8>,
    other: Seq<u8>,
    item: DirEntryView,
    m: int,
)
    requires
        0 <= base,
        0 <= j <= num,
        0 <= m < num,
        base + 32 * num <= img.len(),
        buf.len() == 32,
        img[base + 32 * m + 15] == 0,
        item.name.len() == 15,
        !name_matches(item.name, other),
        search_slots(img, base + 32 * j, j, num, buf, other) matches Ok(r) && (r matches Some(e) ==> e.attr
            != 0),
    ensures
        search_slots(write_at(img, base + 32 * m, encode_entry(item)), base + 32 * j, j, num, buf, other)
            == search_slots(img, base + 32 * j, j, num, buf, other),
    decreases num - j,
{
    if j < num {
        let pos = base + 32 * j;
        let t = base + 32 * m;
        let img2 = write_at(img, t, encode_entry(item));
        lemma_decode_encode(item);
        assert(img2.len() == img.len());
        lemma_full_read(img, pos, buf);
        lemma_full_read(img2, pos, buf);
        let b = read_over(img, pos, buf);
        let b2 = read_over(img2, pos, buf);
        if j == m {
            assert(b2 =~= encode_entry(item));
            assert(decode_entry(b).attr == 0);
        } else {
            if j < m {
                assert(pos + 32 <= t);
            } else {
                assert(t + 32 <= pos);
            }
            assert(b2 =~= b);
        }
        assert(base + 32 * (j + 1) == pos + 32);
        if !name_matches(decode_entry(b).name, other) {
            lemma_search_after_store(img, base, j + 1, num, b, other, item, m);
            lemma_search_buffer_free(img2, base, j + 1, num, b, b2, other);
        }
    }
}

/// When every slot read lies inside the image, the search does not depend
/// on what the read buffer held before.
pub(crate) proof fn lemma_search_buffer_free(
    img: Seq<u8>,
    base: int,
    j: int,
    num: int,
    buf1: Seq<u8>,
    buf2: Seq<u8>,
    name: Seq<u8>,
)
    requires
        0 <= base,
        0 <= j <= num,
        base + 32 * num <= img.len(),
        buf1.len() == 32,
        buf2.len() == 32,
    ensures
        search_slots(img, base + 32 * j, j, num, buf1, name) == search_slots(img, base + 32 * j, j, num, buf2, name),
{
    if j < num {
        lemma_full_read(img, base + 32 * j, buf1);
        lemma_full_read(img, base + 32 * j, buf2);
    }
}

/// Adding an item keeps every other lookup: in a one-block directory past
/// the block map, inside the image, with a free slot and no item named
/// `name`, adding an item named `name` leaves the lookup of any name that
/// the item's name does not match as it was, when that lookup found no
/// item or found one that is not free.
pub proof fn lemma_add_keeps_other_lookups(
    p: TianMuParams,
    img: Seq<u8>,
    d: usize,
    item: DirEntryView,
    name: Seq<u8>,
    other: Seq<u8>,
)
    requires
        params_ok(p),
        img.len() <= usize::MAX,
        root_block(p) <= d < p.block_num,
        (d + 1) * p.block_size <= img.len(),
        u64_at(img, p.block_map_addr + 8 * d) == END,
        exists|k: int|
            0 <= k < slots_per_block(p) && #[trigger] img[d * p.block_size + 32 * k + 15] == 0,
        spec_get_dir_item(p, img, d, name) == Ok::<Option<DirEntryView>, MakeError>(None),
        item.name.len() == 15,
        name_matches(item.name, name),
        !name_matches(item.name, other),
        spec_get_dir_item(p, img, d, other) matches Ok(r) && (r matches Some(e) ==> e.attr != 0),
    ensures
        spec_add_dir_item(p, img, d, item) is Ok,
        spec_get_dir_item(p, spec_add_dir_item(p, img, d, item)->Ok_0, d, other) == spec_get_dir_item(
            p,
            img,
            d,
            other,
        ),
{
    lemma_dir_block_past_map(p, d);
    let bs = p.block_size as int;
    let num = slots_per_block(p);
    let base = d * bs;
    let a = p.block_map_addr + 8 * d;
    let m = lemma_add_slot(p, img, d, item);
    let img2 = write_at(img, base + 32 * m, encode_entry(item));
    lemma_decode_encode(item);
    assert(seq![d].drop_first() =~= Seq::<usize>::empty());
    assert(base + 32 * 0 == base);
    assert(search_blocks(p, img, Seq::<usize>::empty(), other) == search_blocks(
        p,
        img2,
        Seq::<usize>::empty(),
        other,
    ));
    assert(search_slots(img, base, 0, num, zeros(32), other) matches Ok(r) && (r matches Some(e)
        ==> e.attr != 0));
    lemma_search_after_store(img, base, 0, num, zeros(32), other, item, m);
    assert(img2.len() == img.len());
    assert(img2.subrange(a, a + 8) =~= img.subrange(a, a + 8));
    lemma_single_block_chain(p, img2, d);
}

/// The blocks `blocks` all lie past the block map and inside the image.
pub open spec fn blocks_in_dir_area(p: TianMuParams, img: Seq<u8>, blocks: Seq<usize>) -> bool {
    forall|k: int|
        0 <= k < blocks.len() ==> root_block(p) <= #[trigger] blocks[k] < p.block_num && (blocks[k] + 1)
            * p.block_size <= img.len()
}

/// One of the blocks `blocks` has a free slot.
pub open spec fn has_free_slot(p: TianMuParams, img: Seq<u8>, blocks: Seq<usize>) -> bool {
    exists|k: int, s: int|
        0 <= k < blocks.len() && 0 <= s < slots_per_block(p) && #[trigger] img[blocks[k] * p.block_size
            + 32 * s + 15] == 0
}

/// A block whose slots lie inside the image and that has no free slot from
/// slot `j` on yields no free slot.
pub(crate) proof fn lemma_no_free_slot(img: Seq<u8>, base: int, j: int, num: int, buf: Seq<u8>)
    requires
        0 <= base,
        0 <= j <= num,
        base + 32 * num <= img.len(),
        buf.len() == 32,
        forall|k: int| j <= k < num ==> #[trigger] img[base + 32 * k + 15] != 0,
    ensures
        empty_slot(img, base + 32 * j, j, num, buf) == Ok::<Option<int>, MakeError>(None),
    decreases num - j,
{
    if j < num {
        let pos = base + 32 * j;
        lemma_full_read(img, pos, buf);
        let b2 = read_over(img, pos, buf);
        assert(b2[15] == img[base + 32 * j + 15]);
        assert(base + 32 * (j + 1) == pos + 32);
        lemma_no_free_slot(img, base, j + 1, num, b2);
    }
}

/// The rest of a chain reads the same in an image that agrees on the bytes
/// below `lim`, when every entry that the reader reads lies below `lim`.
pub(crate) proof fn lemma_chain_rest_frame(
    img: Seq<u8>,
    img2: Seq<u8>,
    addr: int,
    fuel: nat,
    lim: int,
    s: Seq<usize>,
)
    requires
        img2.len() == img.len(),
        0 <= addr,
        addr == 0 || addr + 8 <= lim,
        lim <= img.len(),
        same_bytes(img, img2, 0, lim),
        chain_rest(img, addr, fuel) == Ok::<Seq<usize>, MakeError>(s),
        forall|k: int| 0 <= k < s.len() ==> 8 * #[trigger] s[k] + 8 <= lim,
    ensures
        chain_rest(img2, addr, fuel) == chain_rest(img, addr, fuel),
    decreases fuel,
{
    if addr != 0 && addr < img.len() && fuel > 0 {
        lemma_full_read(img, addr, zeros(8));
        lemma_full_read(img2, addr, zeros(8));
        assert(img.subrange(addr, addr + 8) =~= img2.subrange(addr, addr + 8));
        let t = spec_u64_from_le_bytes(read_over(img, addr, zeros(8)));
        if t != 0 && t != END && t * 8 <= usize::MAX {
            let r = chain_rest(img, t * 8, (fuel - 1) as nat);
            let s2 = r->Ok_0;
            assert(r is Ok);
            assert(s =~= seq![t as usize] + s2);
            assert(s[0] == t as usize);
            assert forall|k: int| 0 <= k < s2.len() implies 8 * #[trigger] s2[k] + 8 <= lim by {
                assert(s2[k] == s[k + 1]);
            }
            lemma_chain_rest_frame(img, img2, t * 8, (fuel - 1) as nat, lim, s2);
        }
    }
}

/// The search of the blocks `blocks` of a directory (past the block map,
/// inside the image), which hold no item named `name` and have a free
/// slot: the first free slot `t` lies in one of the blocks, and storing an
/// item named `name` there makes the search find it.
pub(crate) proof fn lemma_blocks_store_then_search(
    p: TianMuParams,
    img: Seq<u8>,
    blocks: Seq<usize>,
    item: DirEntryView,
    name: Seq<u8>,
) -> (t: int)
    requires
        params_ok(p),
        img.len() <= usize::MAX,
        blocks_in_dir_area(p, img, blocks),
        has_free_slot(p, img, blocks),
        search_blocks(p, img, blocks, name) == Ok::<Option<DirEntryView>, MakeError>(None),
        item.name.len() == 15,
        name_matches(item.name, name),
    ensures
        exists|k: int|
            0 <= k < blocks.len() && blocks[k] * p.block_size <= t && t + 32 <= blocks[k] * p.block_size
                + p.block_size && #[trigger] empty_slot(
                img,
                blocks[k] * p.block_size,
                0,
                slots_per_block(p),
                zeros(32),
            ) == Ok::<Option<int>, MakeError>(Some(t)),
        empty_slot_in_blocks(p, img, blocks) == Ok::<Option<int>, MakeError>(Some(t)),
        search_blocks(p, write_at(img, t, encode_entry(item)), blocks, name) == Ok::<
            Option<DirEntryView>,
            MakeError,
        >(Some(item)),
    decreases blocks.len(),
{
    let b = blocks[0];
    let bs = p.block_size as int;
    let num = slots_per_block(p);
    let base = b * bs;
    let rest = blocks.drop_first();
    lemma_dir_block_past_map(p, b);
    assert(base + bs == (b + 1) * bs) by (nonlinear_arith)
        requires
            base == b * bs,
    ;
    assert(base + 32 * 0 == base);
    lemma_decode_encode(item);
    if exists|s: int| 0 <= s < num && #[trigger] img[base + 32 * s + 15] == 0 {
        let m = lemma_free_slot_found(img, base, 0, num, zeros(32));
        let t = base + 32 * m;
        lemma_store_then_search(img, base, 0, num, zeros(32), zeros(32), zeros(32), name, item, t);
        assert(blocks[0] * p.block_size <= t);
        t
    } else {
        lemma_no_free_slot(img, base, 0, num, zeros(32));
        assert(blocks_in_dir_area(p, img, rest)) by {
            assert forall|k: int| 0 <= k < rest.len() implies root_block(p) <= #[trigger] rest[k]
                < p.block_num && (rest[k] + 1) * p.block_size <= img.len() by {
                assert(rest[k] == blocks[k + 1]);
            }
        }
        assert(has_free_slot(p, img, rest)) by {
            let (k, s) = choose|k: int, s: int|
                0 <= k < blocks.len() && 0 <= s < slots_per_block(p) && #[trigger] img[blocks[k]
                    * p.block_size + 32 * s + 15] == 0;
            if k == 0 {
                assert(img[base + 32 * s + 15] == 0);
                assert(false);
            }
            assert(rest[k - 1] == blocks[k]);
            assert(img[rest[k - 1] * p.block_size + 32 * s + 15] == 0);
        }
        let t = lemma_blocks_store_then_search(p, img, rest, item, name);
        let k = choose|k: int|
            0 <= k < rest.len() && rest[k] * p.block_size <= t && t + 32 <= rest[k] * p.block_size
                + p.block_size && #[trigger] empty_slot(
                img,
                rest[k] * p.block_size,
                0,
                slots_per_block(p),
                zeros(32),
            ) == Ok::<Option<int>, MakeError>(Some(t));
        let b2 = rest[k];
        assert(rest[k] == blocks[k + 1]);
        assert(b2 != b);
        assert(b2 * bs + bs <= base || base + bs <= b2 * bs) by (nonlinear_arith)
            requires
                b2 != b,
                base == b * bs,
                bs > 0,
        {
            if b2 < b {
                assert(b2 * bs + bs <= b * bs);
            } else {
                assert(b * bs + bs <= b2 * bs);
            }
        }
        assert(b2 * bs + bs == (b2 + 1) * bs) by (nonlinear_arith);
        let img2 = write_at(img, t, encode_entry(item));
        assert(img2.len() == img.len());
        assert(same_bytes(img, img2, base + 32 * 0, base + 32 * num));
        lemma_search_frame(img, img2, base, 0, num, zeros(32), name);
        t
    }
}

/// What a directory of several blocks holds once an item is added: when
/// the directory's chain reads back, all its blocks lie past the block map
/// inside the image, one of them has a free slot, and no item is named
/// `name`, adding an item named `name` succeeds by storing it in one slot
/// of one of the directory's blocks, changing nothing else, and looking
/// `name` up afterwards finds that item.
#[verifier::spinoff_prover]
pub proof fn lemma_added_item_is_found_in_chain(
    p: TianMuParams,
    img: Seq<u8>,
    d: usize,
    item: DirEntryView,
    name: Seq<u8>,
)
    requires
        params_ok(p),
        img.len() <= usize::MAX,
        spec_chain(p, img, d) is Ok,
        blocks_in_dir_area(p, img, spec_chain(p, img, d)->Ok_0),
        has_free_slot(p, img, spec_chain(p, img, d)->Ok_0),
        spec_get_dir_item(p, img, d, name) == Ok::<Option<DirEntryView>, MakeError>(None),
        item.name.len() == 15,
        name_matches(item.name, name),
    ensures
        spec_add_dir_item(p, img, d, item) is Ok,
        exists|k: int, t: int|
            #![trigger spec_chain(p, img, d)->Ok_0[k], write_at(img, t, encode_entry(item))]
            0 <= k < spec_chain(p, img, d)->Ok_0.len() && spec_chain(p, img, d)->Ok_0[k] * p.block_size
                <= t && t + 32 <= spec_chain(p, img, d)->Ok_0[k] * p.block_size + p.block_size
                && spec_add_dir_item(p, img, d, item)->Ok_0 == write_at(img, t, encode_entry(item)),
        spec_get_dir_item(p, spec_add_dir_item(p, img, d, item)->Ok_0, d, name) == Ok::<
            Option<DirEntryView>,
            MakeError,
        >(Some(item)),
{
    let c = spec_chain(p, img, d)->Ok_0;
    let a = p.block_map_addr + 8 * d;
    let t = lemma_blocks_store_then_search(p, img, c, item, name);
    let k = choose|k: int|
        0 <= k < c.len() && c[k] * p.block_size <= t && t + 32 <= c[k] * p.block_size + p.block_size
            && #[trigger] empty_slot(img, c[k] * p.block_size, 0, slots_per_block(p), zeros(32)) == Ok::<
            Option<int>,
            MakeError,
        >(Some(t));
    let ck = c[k];
    assert(ck * p.block_size + p.block_size == (ck + 1) * p.block_size) by (nonlinear_arith);
    assert(t + 32 <= img.len());
    lemma_decode_encode(item);
    let img2 = write_at(img, t, encode_entry(item));
    assert(img2 == spec_add_dir_item(p, img, d, item)->Ok_0);
    assert(img2.len() == img.len());
    // The chain is read below the first directory block, which the write
    // does not reach.
    let lim = root_block(p) * p.block_size;
    lemma_root_past_map(p);
    assert(lim <= c[k] * p.block_size) by (nonlinear_arith)
        requires
            lim == root_block(p) * p.block_size,
            root_block(p) <= c[k],
    ;
    assert(same_bytes(img, img2, 0, lim));
    let s = chain_rest(img, a, img.len())->Ok_0;
    assert(chain_rest(img, a, img.len()) is Ok);
    assert(c =~= seq![d] + s);
    assert(c[0] == d);
    assert forall|i: int| 0 <= i < s.len() implies 8 * #[trigger] s[i] + 8 <= lim by {
        assert(s[i] == c[i + 1]);
    }
    lemma_chain_rest_frame(img, img2, a, img.len(), lim, s);
    assert(spec_chain(p, img2, d) == spec_chain(p, img, d));
}

/// The position of slot `s` of block `b`.
pub open spec fn slot_at(p: TianMuParams, b: int, s: int) -> int {
    b * p.block_size + 32 * s
}

/// Slot `m` of `blocks[k]` is the first free slot of the blocks `blocks`,
/// taken in order: it is free, and every slot before it (all slots of the
/// earlier blocks, and the earlier slots of its own block) is taken.
pub open spec fn first_free_slot(p: TianMuParams, img: Seq<u8>, blocks: Seq<usize>, k: int, m: int) -> bool {
    &&& 0 <= k < blocks.len()
    &&& 0 <= m < slots_per_block(p)
    &&& img[slot_at(p, blocks[k] as int, m) + 15] == 0
    &&& forall|j: int, s: int|
        0 <= j < k && 0 <= s < slots_per_block(p) ==> img[#[trigger] slot_at(p, blocks[j] as int, s) + 15]
            != 0
    &&& forall|s: int| 0 <= s < m ==> img[#[trigger] slot_at(p, blocks[k] as int, s) + 15] != 0
}

/// The search of the blocks `blocks` (past the block map, inside the
/// image, one of them with a free slot) yields their first free slot.
pub(crate) proof fn lemma_first_free_slot_found(p: TianMuParams, img: Seq<u8>, blocks: Seq<usize>) -> (r: (
    int,
    int,
))
    requires
        params_ok(p),
        img.len() <= usize::MAX,
        blocks_in_dir_area(p, img, blocks),
        has_free_slot(p, img, blocks),
    ensures
        first_free_slot(p, img, blocks, r.0, r.1),
        empty_slot_in_blocks(p, img, blocks) == Ok::<Option<int>, MakeError>(
            Some(slot_at(p, blocks[r.0] as int, r.1)),
        ),
    decreases blocks.len(),
{
    let b = blocks[0];
    let bs = p.block_size as int;
    let num = slots_per_block(p);
    let base = b * bs;
    let rest = blocks.drop_first();
    lemma_dir_block_past_map(p, b);
    assert(base + bs == (b + 1) * bs) by (nonlinear_arith)
        requires
            base == b * bs,
    ;
    assert(base + 32 * 0 == base);
    if exists|s: int| 0 <= s < num && #[trigger] img[base + 32 * s + 15] == 0 {
        let m = lemma_free_slot_found(img, base, 0, num, zeros(32));
        assert forall|s: int| 0 <= s < m implies img[#[trigger] slot_at(p, blocks[0] as int, s) + 15]
            != 0 by {
            assert(img[base + 32 * s + 15] != 0);
        }
        (0, m)
    } else {
        lemma_no_free_slot(img, base, 0, num, zeros(32));
        assert(blocks_in_dir_area(p, img, rest)) by {
            assert forall|k: int| 0 <= k < rest.len() implies root_block(p) <= #[trigger] rest[k]
                < p.block_num && (rest[k] + 1) * p.block_size <= img.len() by {
                assert(rest[k] == blocks[k + 1]);
            }
        }
        assert(has_free_slot(p, img, rest)) by {
            let (k, s) = choose|k: int, s: int|
                0 <= k < blocks.len() && 0 <= s < slots_per_block(p) && #[trigger] img[blocks[k]
                    * p.block_size + 32 * s + 15] == 0;
            if k == 0 {
                assert(img[base + 32 * s + 15] == 0);
                assert(false);
            }
            assert(rest[k - 1] == blocks[k]);
            assert(img[rest[k - 1] * p.block_size + 32 * s + 15] == 0);
        }
        let (k, m) = lemma_first_free_slot_found(p, img, rest);
        assert(rest[k] == blocks[k + 1]);
        assert forall|j: int, s: int| 0 <= j < k + 1 && 0 <= s < num implies img[#[trigger] slot_at(
            p,
            blocks[j] as int,
            s,
        ) + 15] != 0 by {
            if j == 0 {
                assert(!(img[base + 32 * s + 15] == 0));
            } else {
                assert(blocks[j] == rest[j - 1]);
                assert(img[slot_at(p, rest[j - 1] as int, s) + 15] != 0);
            }
        }
        assert forall|s: int| 0 <= s < m implies img[#[trigger] slot_at(p, blocks[k + 1] as int, s) + 15]
            != 0 by {
            assert(img[slot_at(p, rest[k] as int, s) + 15] != 0);
        }
        (k + 1, m)
    }
}

/// Where an item goes: when a directory's chain reads back and its blocks
/// lie past the block map inside the image, with a free slot among them,
/// adding an item writes it into the first free slot of the directory's
/// blocks in chain order, and changes nothing else.
pub proof fn lemma_add_takes_first_free_slot(p: TianMuParams, img: Seq<u8>, d: usize, item: DirEntryView)
    requires
        params_ok(p),
        img.len() <= usize::MAX,
        spec_chain(p, img, d) is Ok,
        blocks_in_dir_area(p, img, spec_chain(p, img, d)->Ok_0),
        has_free_slot(p, img, spec_chain(p, img, d)->Ok_0),
    ensures
        exists|k: int, m: int|
            #[trigger] first_free_slot(p, img, spec_chain(p, img, d)->Ok_0, k, m) && spec_add_dir_item(
                p,
                img,
                d,
                item,
            ) == Ok::<Seq<u8>, MakeError>(
                write_at(img, slot_at(p, spec_chain(p, img, d)->Ok_0[k] as int, m), encode_entry(item)),
            ),
{
    let c = spec_chain(p, img, d)->Ok_0;
    let (k, m) = lemma_first_free_slot_found(p, img, c);
    let ck = c[k];
    let bs = p.block_size as int;
    assert(root_block(p) <= ck < p.block_num && (ck + 1) * bs <= img.len());
    lemma_dir_block_past_map(p, ck);
    assert(ck * bs + 32 * m + 32 <= (ck + 1) * bs) by (nonlinear_arith)
        requires
            0 <= m < slots_per_block(p),
            32 * slots_per_block(p) <= bs,
    ;
    assert(first_free_slot(p, img, c, k, m));
}

} // verus!
