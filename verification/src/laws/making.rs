//! The law of making an image from a tree of files directly under the root:
//! every file is found in the root directory, and its contents read back.
use vstd::prelude::*;
use vstd::bytes::*;
use vstd::utf8::encode_utf8;
use crate::image::{write_at, u64_at, zeros, read_over};
use crate::tianmu::{TianMuParams, params_ok, END, root_block, slots_per_block, spec_init,
    reserved_blocks, map_slots, chunk, blocks_for, spec_super_block, super_block_region,
    spec_store, spec_find_free, next_link, spec_add_file_bytes, spec_add_dir_item, TianMu,
    spec_get_dir_item, search_slots, search_blocks};
use crate::entry::{DirEntryView, name_field, encode_entry, ATTR_FILE, lemma_decode_encode};
use crate::laws::block_map::{is_free, in_entry_of, lemma_init_marks_reserved, lemma_root_past_map,
    lemma_first_free_from};
use crate::laws::bytes::{same_bytes, lemma_full_read};
use crate::laws::contents::{lemma_chunk_fits, lemma_stored_contents_read_back,
    lemma_store_keeps_root};
use crate::laws::directories::{lemma_dir_block_past_map, lemma_add_slot, lemma_find_root,
    lemma_single_block_chain};
use crate::laws::names::{plain_chars, lemma_plain_chars_bytes, lemma_path_bytes,
    lemma_path_under_root, lemma_encode_injective, lemma_plain_field_matches_only};
use crate::maker::{SourceFile, SourceDir, spec_make, spec_add_files, spec_trace_dirs};
use crate::require::MakeError;

verus! {

/// The blocks that the contents of the first `i` files take.
pub open spec fn blocks_before(p: TianMuParams, files: Seq<SourceFile>, i: int) -> int
    decreases i,
{
    if i <= 0 {
        0
    } else {
        blocks_before(p, files, i - 1) + blocks_for(files[i - 1].content@.len() as int, p.block_size as int)
    }
}

/// The first block of the contents of file `i`: the files' contents take
/// the blocks after the reserved ones, one file after another.
pub open spec fn first_block_of(p: TianMuParams, files: Seq<SourceFile>, i: int) -> int {
    reserved_blocks(p) + blocks_before(p, files, i)
}

/// What follows the root path and a `/` in `path`.
pub open spec fn part_after(root: Seq<char>, path: Seq<char>) -> Seq<char> {
    path.subrange(root.len() + 1int, path.len() as int)
}

/// A file directly under the root, with a plain name of one to fifteen
/// characters and contents that are not empty.
pub open spec fn flat_file(p: TianMuParams, root: Seq<char>, f: SourceFile) -> bool {
    &&& f.path@.len() > root.len()
    &&& f.path@ == root + seq!['/'] + part_after(root, f.path@)
    &&& plain_chars(part_after(root, f.path@))
    &&& 1 <= part_after(root, f.path@).len() <= 15
    &&& f.content@.len() > 0
    &&& f.content@.len() + p.block_size <= usize::MAX
}

/// The name of a file directly under the root, as bytes.
pub open spec fn file_name_bytes(root: Seq<char>, f: SourceFile) -> Seq<u8> {
    encode_utf8(part_after(root, f.path@))
}

/// The item that making the image records in the root directory for
/// file `i`.
pub open spec fn made_item(p: TianMuParams, root: Seq<char>, files: Seq<SourceFile>, i: int) -> DirEntryView {
    DirEntryView {
        name: name_field(file_name_bytes(root, files[i])),
        attr: ATTR_FILE,
        start_block: first_block_of(p, files, i) as u64,
        length: files[i].content@.len() as u64,
    }
}

/// `data` is stored from block `s` on: piece `c` reads back from block
/// `s + c`, and each block's map entry names the next one, the last `END`.
pub open spec fn stored_from(p: TianMuParams, img: Seq<u8>, s: int, data: Seq<u8>) -> bool {
    let bs = p.block_size as int;
    let num = blocks_for(data.len() as int, bs);
    forall|c: int|
        0 <= c < num ==> {
            &&& img.subrange((s + c) * bs, (s + c) * bs + chunk(data, bs, c).len()) == #[trigger] chunk(
                data,
                bs,
                c,
            )
            &&& u64_at(img, p.block_map_addr + 8 * (s + c)) == (if c + 1 < num {
                (s + c + 1) as u64
            } else {
                END
            })
        }
}

/// Pieces read back from consecutive blocks `s`, `s + 1`, ... that the map
/// chains in order are stored from block `s`.
pub(crate) proof fn lemma_stored_from_blocks(p: TianMuParams, img: Seq<u8>, s: int, data: Seq<u8>, blocks: Seq<usize>)
    requires
        0 <= s,
        s + blocks_for(data.len() as int, p.block_size as int) <= usize::MAX,
        blocks == Seq::new(blocks_for(data.len() as int, p.block_size as int) as nat, |i: int| (s + i) as usize),
        forall|k: int|
            0 <= k < blocks_for(data.len() as int, p.block_size as int) ==> img.subrange(
                blocks[k] * p.block_size,
                blocks[k] * p.block_size + chunk(data, p.block_size as int, k).len(),
            ) == #[trigger] chunk(data, p.block_size as int, k),
        forall|k: int|
            0 <= k < blocks_for(data.len() as int, p.block_size as int) ==> u64_at(
                img,
                p.block_map_addr + 8 * blocks[k],
            ) == #[trigger] next_link(blocks, k),
    ensures
        stored_from(p, img, s, data),
{
    let bs = p.block_size as int;
    let num = blocks_for(data.len() as int, bs);
    assert forall|c: int| 0 <= c < num implies {
        &&& img.subrange((s + c) * bs, (s + c) * bs + chunk(data, bs, c).len()) == #[trigger] chunk(data, bs, c)
        &&& u64_at(img, p.block_map_addr + 8 * (s + c)) == (if c + 1 < num {
            (s + c + 1) as u64
        } else {
            END
        })
    } by {
        assert(blocks[c] == s + c);
        assert(img.subrange(blocks[c] * bs, blocks[c] * bs + chunk(data, bs, c).len()) == chunk(data, bs, c));
        assert(u64_at(img, p.block_map_addr + 8 * blocks[c]) == next_link(blocks, c));
        if c + 1 < num {
            assert(blocks[c + 1] == s + c + 1);
        }
    }
}

/// Slot `j` of the directory block at byte `base`.
pub open spec fn slot_of(img: Seq<u8>, base: int, j: int) -> Seq<u8> {
    img.subrange(base + 32 * j, base + 32 * j + 32)
}

/// The image after the first `k` files were added: its length is `len0`;
/// the reserved blocks end their chains; the blocks the `k` files took are
/// used and hold them; the blocks after them are free; the root
/// directory's first `k` slots hold the files' items and the others are
/// zero.
pub open spec fn packed(
    p: TianMuParams,
    root: Seq<char>,
    files: Seq<SourceFile>,
    k: int,
    len0: int,
    img: Seq<u8>,
) -> bool {
    let base = root_block(p) * p.block_size;
    &&& img.len() == len0
    &&& forall|b: int| 0 <= b < reserved_blocks(p) ==> #[trigger] u64_at(img, p.block_map_addr + 8 * b) == END
    &&& forall|b: int|
        reserved_blocks(p) <= b < first_block_of(p, files, k) ==> !#[trigger] is_free(p, img, b)
    &&& forall|b: int| first_block_of(p, files, k) <= b < p.block_num ==> #[trigger] is_free(p, img, b)
    &&& forall|j: int|
        0 <= j < k ==> #[trigger] stored_from(p, img, first_block_of(p, files, j), files[j].content@)
    &&& forall|j: int| 0 <= j < k ==> #[trigger] slot_of(img, base, j) == encode_entry(made_item(p, root, files, j))
    &&& forall|j: int| k <= j < slots_per_block(p) ==> #[trigger] slot_of(img, base, j) == zeros(32)
}

/// The image after the map is laid out and the super block written holds
/// no file yet: its root directory's slots are zero.
#[verifier::spinoff_prover]
pub(crate) proof fn lemma_made_start(p: TianMuParams, root: Seq<char>, files: Seq<SourceFile>, img: Seq<u8>)
    requires
        params_ok(p),
        img.len() <= usize::MAX,
        spec_init(p, img) is Ok,
        reserved_blocks(p) <= p.block_num,
    ensures
        ({
            let img1 = spec_init(p, img)->Ok_0;
            let img2 = spec_super_block(p, img1);
            &&& img1.len() <= usize::MAX
            &&& img1.len() >= p.block_num * p.block_size
            &&& img1.len() >= p.block_map_addr + 8 * p.block_num
            &&& img1.len() >= 1024
            &&& packed(p, root, files, 0, img1.len() as int, img2)
            &&& forall|i: int|
                reserved_blocks(p) * p.block_size <= i < p.block_num * p.block_size ==> #[trigger] img2[i] == 0
        }),
{
    let bs = p.block_size as int;
    let bn = p.block_num as int;
    let img1 = spec_init(p, img)->Ok_0;
    let img2 = spec_super_block(p, img1);
    let res = reserved_blocks(p);
    let rb = root_block(p) as int;
    let base = rb * bs;
    let ms = map_slots(p);
    let a = p.block_map_addr as int;
    lemma_init_marks_reserved(p, img);
    lemma_root_past_map(p);
    lemma_dir_block_past_map(p, rb as usize);
    assert(res == rb + 1);
    let cleared = write_at(img, 0, zeros((p.block_num * p.block_size) as nat));
    let mapped = write_at(cleared, a, zeros((8 * ms) as nat));
    assert(img1 == write_at(mapped, a, crate::tianmu::ones((8 * res) as nat)));
    assert(cleared.len() >= bn * bs);
    assert(img1.len() >= bn * bs);
    let isz = p.image_size as int;
    assert(bn * bs <= isz) by (nonlinear_arith)
        requires
            bn == isz / bs,
            bs > 0,
    ;
    assert(img1.len() <= usize::MAX);
    assert((rb + 1) * bs <= bn * bs) by (nonlinear_arith)
        requires
            rb + 1 <= bn,
            bs > 0,
    ;
    assert(rb * bs + bs == (rb + 1) * bs) by (nonlinear_arith);
    lemma_auto_spec_u64_to_from_le_bytes();
    assert(super_block_region(p).len() == 1024);
    assert(img2.len() == img1.len());
    assert(blocks_before(p, files, 0) == 0);
    assert forall|b: int| 0 <= b < res implies #[trigger] u64_at(img2, a + 8 * b) == END by {
        assert(img2.subrange(a + 8 * b, a + 8 * b + 8) =~= img1.subrange(a + 8 * b, a + 8 * b + 8));
        assert(u64_at(img1, a + 8 * b) == END);
    }
    assert forall|b: int| first_block_of(p, files, 0) <= b < bn implies #[trigger] is_free(p, img2, b) by {
        assert(img2.subrange(a + 8 * b, a + 8 * b + 8) =~= img1.subrange(a + 8 * b, a + 8 * b + 8));
        assert(is_free(p, img1, b));
    }
    assert(base + bs == res * bs) by (nonlinear_arith)
        requires
            base == rb * bs,
            res == rb + 1,
    ;
    assert forall|i: int| res * bs <= i < bn * bs implies #[trigger] img2[i] == 0 by {
        assert(cleared[i] == 0u8);
        assert(mapped[i] == 0u8);
    }
    assert forall|j: int| 0 <= j < slots_per_block(p) implies #[trigger] slot_of(img2, base, j) == zeros(32) by {
        assert forall|i: int| base + 32 * j <= i < base + 32 * j + 32 implies img2[i] == 0u8 by {
            assert(cleared[i] == 0u8);
            assert(mapped[i] == 0u8);
        }
        assert(slot_of(img2, base, j) =~= zeros(32));
    }
}

/// The blocks the first files take are never negative in number.
pub(crate) proof fn lemma_blocks_before_nonneg(p: TianMuParams, files: Seq<SourceFile>, i: int)
    requires
        p.block_size > 0,
    ensures
        0 <= blocks_before(p, files, i),
    decreases i,
{
    if i > 0 {
        lemma_blocks_before_nonneg(p, files, i - 1);
        let len = files[i - 1].content@.len() as int;
        let bs = p.block_size as int;
        assert((len + bs - 1) / bs >= 0) by (nonlinear_arith)
            requires
                len >= 0,
                bs > 0,
        ;
    }
}

/// The blocks the first files take grow with the number of files.
pub(crate) proof fn lemma_blocks_before_mono(p: TianMuParams, files: Seq<SourceFile>, i: int, j: int)
    requires
        p.block_size > 0,
        0 <= i <= j,
    ensures
        0 <= blocks_before(p, files, i) <= blocks_before(p, files, j),
    decreases j,
{
    if j > i {
        lemma_blocks_before_mono(p, files, i, j - 1);
        let len = files[j - 1].content@.len() as int;
        let bs = p.block_size as int;
        assert((len + bs - 1) / bs >= 0) by (nonlinear_arith)
            requires
                len >= 0,
                bs > 0,
        ;
    } else {
        lemma_blocks_before_nonneg(p, files, i);
    }
}

/// Contents stored from block `s` stay stored in an image that agrees
/// on their blocks and on their map entries.
pub(crate) proof fn lemma_stored_from_frame(p: TianMuParams, img: Seq<u8>, img2: Seq<u8>, s: int, data: Seq<u8>)
    requires
        params_ok(p),
        0 <= s,
        img2.len() == img.len(),
        (s + blocks_for(data.len() as int, p.block_size as int)) * p.block_size <= img.len(),
        p.block_map_addr + 8 * (s + blocks_for(data.len() as int, p.block_size as int)) <= img.len(),
        same_bytes(
            img,
            img2,
            s * p.block_size,
            (s + blocks_for(data.len() as int, p.block_size as int)) * p.block_size,
        ),
        same_bytes(
            img,
            img2,
            p.block_map_addr + 8 * s,
            p.block_map_addr + 8 * (s + blocks_for(data.len() as int, p.block_size as int)),
        ),
        stored_from(p, img, s, data),
    ensures
        stored_from(p, img2, s, data),
{
    let bs = p.block_size as int;
    let num = blocks_for(data.len() as int, bs);
    let a = p.block_map_addr as int;
    assert forall|c: int| 0 <= c < num implies {
        &&& img2.subrange((s + c) * bs, (s + c) * bs + chunk(data, bs, c).len()) == #[trigger] chunk(data, bs, c)
        &&& u64_at(img2, a + 8 * (s + c)) == (if c + 1 < num {
            (s + c + 1) as u64
        } else {
            END
        })
    } by {
        lemma_chunk_fits(data, bs, c);
        assert(s * bs <= (s + c) * bs && (s + c) * bs + bs <= (s + num) * bs) by (nonlinear_arith)
            requires
                0 <= c < num,
                0 <= s,
                bs > 0,
        ;
        let lo = (s + c) * bs;
        let hi = lo + chunk(data, bs, c).len();
        assert(img2.subrange(lo, hi) =~= img.subrange(lo, hi));
        assert(img2.subrange(a + 8 * (s + c), a + 8 * (s + c) + 8) =~= img.subrange(
            a + 8 * (s + c),
            a + 8 * (s + c) + 8,
        ));
    }
}

/// Adding file `k` to an image that holds the first `k` files directly
/// under the root leaves an image that holds the first `k + 1`.
#[verifier::spinoff_prover]
pub(crate) proof fn lemma_made_step(
    p: TianMuParams,
    root: Seq<char>,
    files: Seq<SourceFile>,
    k: int,
    len0: int,
    img: Seq<u8>,
)
    requires
        params_ok(p),
        0 <= k < files.len(),
        k < slots_per_block(p),
        first_block_of(p, files, files.len() as int) <= p.block_num,
        flat_file(p, root, files[k]),
        len0 <= usize::MAX,
        len0 >= p.block_num * p.block_size,
        len0 >= p.block_map_addr + 8 * p.block_num,
        packed(p, root, files, k, len0, img),
    ensures
        spec_add_file_bytes(p, encode_utf8(root), encode_utf8(files[k].path@), files[k].content@, img) is Ok,
        packed(
            p,
            root,
            files,
            k + 1,
            len0,
            spec_add_file_bytes(p, encode_utf8(root), encode_utf8(files[k].path@), files[k].content@, img)->Ok_0,
        ),
{
    let bs = p.block_size as int;
    let bn = p.block_num as int;
    let a = p.block_map_addr as int;
    let res = reserved_blocks(p);
    let rb = root_block(p) as int;
    let base = rb * bs;
    let n = files.len() as int;
    let f = files[k];
    let data = f.content@;
    let s = first_block_of(p, files, k);
    let num = blocks_for(data.len() as int, bs);
    lemma_root_past_map(p);
    lemma_blocks_before_mono(p, files, k, k + 1);
    lemma_blocks_before_mono(p, files, k + 1, n);
    assert(res == rb + 1);
    assert(rb < bn);
    lemma_dir_block_past_map(p, rb as usize);
    assert(num >= 1) by (nonlinear_arith)
        requires
            num == (data.len() + bs - 1) / bs,
            data.len() >= 1,
            bs > 0,
    {
        assert(data.len() + bs - 1 >= bs);
    }
    assert(first_block_of(p, files, k + 1) == s + num);
    assert(s + num <= bn);
    assert(base + bs == res * bs) by (nonlinear_arith)
        requires
            base == rb * bs,
            res == rb + 1,
    ;
    assert(res * bs <= s * bs) by (nonlinear_arith)
        requires
            res <= s,
            bs > 0,
    ;
    assert((s + num) * bs <= bn * bs) by (nonlinear_arith)
        requires
            s + num <= bn,
            bs > 0,
    ;
    // The contents go into the blocks from `s` on.
    assert forall|b: int| 0 <= b < s implies !#[trigger] is_free(p, img, b) by {
        if b < res {
            assert(u64_at(img, a + 8 * b) == END);
        }
    }
    lemma_first_free_from(p, img, s, num);
    let blocks = spec_find_free(p, img, num)->Ok_0;
    assert(blocks == Seq::new(num as nat, |i: int| (s + i) as usize));
    assert(spec_store(p, img, data) is Ok);
    let stored = spec_store(p, img, data)->Ok_0.1;
    assert forall|b: int| 0 <= b < res implies !#[trigger] is_free(p, img, b) by {
        assert(u64_at(img, a + 8 * b) == END);
    }
    lemma_stored_contents_read_back(p, img, data);
    lemma_store_keeps_root(p, img, data);
    lemma_stored_from_blocks(p, stored, s, data, blocks);
    // Bytes before block `s`, outside the map entries of the blocks taken,
    // are as they were.
    assert forall|i: int| 0 <= i < len0 && i < s * bs && !(a + 8 * s <= i < a + 8 * (s + num)) implies #[trigger] stored[i]
        == img[i] by {
        assert(blocks[0] == s);
        if in_entry_of(p, blocks, i) {
            let j = choose|j: int|
                0 <= j < blocks.len() && a + 8 * #[trigger] blocks[j] <= i < a + 8 * blocks[j] + 8;
            assert(blocks[j] == s + j);
            assert(false);
        }
    }
    // The item goes into the root directory.
    let part = part_after(root, f.path@);
    let name = encode_utf8(part);
    lemma_path_bytes(root, part);
    lemma_plain_chars_bytes(part);
    lemma_path_under_root(encode_utf8(root), name);
    lemma_find_root(p, stored, name);
    let item = made_item(p, root, files, k);
    assert(spec_store(p, img, data)->Ok_0.0 == s);
    assert(spec_add_file_bytes(p, encode_utf8(root), encode_utf8(f.path@), data, img) == spec_add_dir_item(
        p,
        stored,
        rb as usize,
        item,
    ));
    assert((rb + 1) * bs <= bn * bs) by (nonlinear_arith)
        requires
            rb + 1 <= bn,
            bs > 0,
    ;
    assert(base + 32 * k + 32 <= len0);
    assert(slot_of(img, base, k) == zeros(32));
    assert(stored[base + 32 * k + 15] == 0) by {
        assert(img[base + 32 * k + 15] == slot_of(img, base, k)[15]);
    }
    assert(u64_at(stored, a + 8 * rb) == END) by {
        assert(stored.subrange(a + 8 * rb, a + 8 * rb + 8) =~= img.subrange(a + 8 * rb, a + 8 * rb + 8));
        assert(u64_at(img, a + 8 * rb) == END);
    }
    assert((rb + 1) * bs <= stored.len());
    let m = lemma_add_slot(p, stored, rb as usize, item);
    lemma_decode_encode(item);
    if m < k {
        assert(slot_of(img, base, m) == encode_entry(made_item(p, root, files, m)));
        lemma_decode_encode(made_item(p, root, files, m));
        assert(stored[base + 32 * m + 15] == slot_of(img, base, m)[15]);
        assert(false);
    }
    if m > k {
        assert(stored[base + 32 * k + 15] != 0);
        assert(false);
    }
    let t = base + 32 * k;
    let img3 = write_at(stored, t, encode_entry(item));
    assert(spec_add_dir_item(p, stored, rb as usize, item) == Ok::<Seq<u8>, crate::require::MakeError>(img3));
    assert(img3.len() == len0);
    // What the new image keeps.
    assert forall|i: int| 0 <= i < len0 && !(t <= i < t + 32) implies #[trigger] img3[i] == stored[i] by {}
    assert(slot_of(img3, base, k) =~= encode_entry(item));
    lemma_made_step_packed(p, root, files, k, len0, img, stored, img3);
}

/// The parts of the step that make the new image hold the first `k + 1`
/// files.
#[verifier::spinoff_prover]
proof fn lemma_made_step_packed(
    p: TianMuParams,
    root: Seq<char>,
    files: Seq<SourceFile>,
    k: int,
    len0: int,
    img: Seq<u8>,
    stored: Seq<u8>,
    img3: Seq<u8>,
)
    requires
        params_ok(p),
        0 <= k < files.len(),
        k < slots_per_block(p),
        first_block_of(p, files, files.len() as int) <= p.block_num,
        len0 >= p.block_num * p.block_size,
        len0 >= p.block_map_addr + 8 * p.block_num,
        packed(p, root, files, k, len0, img),
        stored.len() == len0,
        img3.len() == len0,
        stored_from(
            p,
            stored,
            first_block_of(p, files, k),
            files[k].content@,
        ),
        forall|i: int|
            0 <= i < len0 && i < first_block_of(p, files, k) * p.block_size && !(p.block_map_addr + 8
                * first_block_of(p, files, k) <= i < p.block_map_addr + 8 * first_block_of(p, files, k + 1))
                ==> #[trigger] stored[i] == img[i],
        forall|i: int|
            0 <= i < len0 && !(root_block(p) * p.block_size + 32 * k <= i < root_block(p) * p.block_size
                + 32 * k + 32) ==> #[trigger] img3[i] == stored[i],
        slot_of(img3, root_block(p) * p.block_size, k) == encode_entry(made_item(p, root, files, k)),
    ensures
        packed(p, root, files, k + 1, len0, img3),
{
    let bs = p.block_size as int;
    let bn = p.block_num as int;
    let a = p.block_map_addr as int;
    let res = reserved_blocks(p);
    let rb = root_block(p) as int;
    let base = rb * bs;
    let n = files.len() as int;
    let s = first_block_of(p, files, k);
    let num = blocks_for(files[k].content@.len() as int, bs);
    let t = base + 32 * k;
    lemma_root_past_map(p);
    lemma_blocks_before_mono(p, files, k, k + 1);
    lemma_blocks_before_mono(p, files, k + 1, n);
    lemma_dir_block_past_map(p, rb as usize);
    assert(res == rb + 1);
    assert((rb + 1) * bs <= bn * bs) by (nonlinear_arith)
        requires
            rb + 1 <= bn,
            bs > 0,
    ;
    assert(s * bs <= (s + num) * bs) by (nonlinear_arith)
        requires
            num >= 0,
            bs > 0,
    ;
    assert(first_block_of(p, files, k + 1) == s + num);
    assert(base + bs == res * bs) by (nonlinear_arith)
        requires
            base == rb * bs,
            res == rb + 1,
    ;
    assert(res * bs <= s * bs) by (nonlinear_arith)
        requires
            res <= s,
            bs > 0,
    ;
    // Map entries below `s`, and from `s + num` on, are as they were.
    assert forall|b: int| 0 <= b < bn && (b < s || s + num <= b) implies img3.subrange(a + 8 * b, a + 8 * b + 8)
        == #[trigger] img.subrange(a + 8 * b, a + 8 * b + 8) by {
        assert forall|i: int| a + 8 * b <= i < a + 8 * b + 8 implies img3[i] == img[i] by {
            assert(img3[i] == stored[i]);
            assert(stored[i] == img[i]);
        }
        assert(img3.subrange(a + 8 * b, a + 8 * b + 8) =~= img.subrange(a + 8 * b, a + 8 * b + 8));
    }
    assert forall|b: int| 0 <= b < res implies #[trigger] u64_at(img3, a + 8 * b) == END by {
        assert(img3.subrange(a + 8 * b, a + 8 * b + 8) == img.subrange(a + 8 * b, a + 8 * b + 8));
        assert(u64_at(img, a + 8 * b) == END);
    }
    assert forall|b: int| s + num <= b < bn implies #[trigger] is_free(p, img3, b) by {
        assert(img3.subrange(a + 8 * b, a + 8 * b + 8) == img.subrange(a + 8 * b, a + 8 * b + 8));
        assert(is_free(p, img, b));
    }
    // The new file's contents stay where the store put them.
    assert((s + num) * bs <= bn * bs) by (nonlinear_arith)
        requires
            s + num <= bn,
            bs > 0,
    ;
    assert(same_bytes(stored, img3, s * bs, (s + num) * bs));
    assert(same_bytes(stored, img3, a + 8 * s, a + 8 * (s + num)));
    lemma_stored_from_frame(p, stored, img3, s, files[k].content@);
    assert forall|b: int| res <= b < s + num implies !#[trigger] is_free(p, img3, b) by {
        if b < s {
            assert(img3.subrange(a + 8 * b, a + 8 * b + 8) == img.subrange(a + 8 * b, a + 8 * b + 8));
            assert(!is_free(p, img, b));
        } else {
            let c = b - s;
            assert(c < num);
            assert(chunk(files[k].content@, bs, c) == chunk(files[k].content@, bs, c));
            assert(u64_at(img3, a + 8 * (s + c)) == (if c + 1 < num {
                (s + c + 1) as u64
            } else {
                END
            }));
        }
    }
    // The earlier files' contents are as they were.
    assert forall|j: int| 0 <= j < k + 1 implies #[trigger] stored_from(
        p,
        img3,
        first_block_of(p, files, j),
        files[j].content@,
    ) by {
        if j < k {
            let sj = first_block_of(p, files, j);
            let numj = blocks_for(files[j].content@.len() as int, bs);
            lemma_blocks_before_mono(p, files, j, j + 1);
            lemma_blocks_before_mono(p, files, j + 1, k);
            assert(first_block_of(p, files, j + 1) == sj + numj);
            assert(sj + numj <= s);
            assert((sj + numj) * bs <= s * bs) by (nonlinear_arith)
                requires
                    sj + numj <= s,
                    bs > 0,
            ;
            assert(res * bs <= sj * bs) by (nonlinear_arith)
                requires
                    res <= sj,
                    bs > 0,
            ;
            assert(same_bytes(img, img3, sj * bs, (sj + numj) * bs)) by {
                assert forall|i: int| sj * bs <= i < (sj + numj) * bs implies #[trigger] img[i] == img3[i] by {
                    assert(img3[i] == stored[i]);
                    assert(stored[i] == img[i]);
                }
            }
            assert(same_bytes(img, img3, a + 8 * sj, a + 8 * (sj + numj))) by {
                assert forall|i: int| a + 8 * sj <= i < a + 8 * (sj + numj) implies #[trigger] img[i] == img3[i] by {
                    assert(img3[i] == stored[i]);
                    assert(stored[i] == img[i]);
                }
            }
            assert(stored_from(p, img, sj, files[j].content@));
            lemma_stored_from_frame(p, img, img3, sj, files[j].content@);
        }
    }
    // The root directory's other slots are as they were.
    assert forall|j: int| 0 <= j < slots_per_block(p) && j != k implies #[trigger] slot_of(img3, base, j)
        == slot_of(img, base, j) by {
        assert forall|i: int| base + 32 * j <= i < base + 32 * j + 32 implies img3[i] == img[i] by {
            assert(img3[i] == stored[i]);
            assert(stored[i] == img[i]);
        }
        assert(slot_of(img3, base, j) =~= slot_of(img, base, j));
    }
    assert forall|j: int| 0 <= j < k + 1 implies #[trigger] slot_of(img3, base, j) == encode_entry(
        made_item(p, root, files, j),
    ) by {
        if j < k {
            assert(slot_of(img3, base, j) == slot_of(img, base, j));
        }
    }
    assert forall|j: int| k + 1 <= j < slots_per_block(p) implies #[trigger] slot_of(img3, base, j) == zeros(32) by {
        assert(slot_of(img3, base, j) == slot_of(img, base, j));
    }
}

/// Adding the files from `k` on to an image that holds the first `k`
/// leaves one that holds them all.
pub(crate) proof fn lemma_made_files(
    format: TianMu,
    root: Seq<char>,
    files: Seq<SourceFile>,
    k: int,
    len0: int,
    img: Seq<u8>,
)
    requires
        params_ok(format@),
        0 <= k <= files.len(),
        files.len() <= slots_per_block(format@),
        first_block_of(format@, files, files.len() as int) <= format@.block_num,
        forall|i: int| 0 <= i < files.len() ==> flat_file(format@, root, #[trigger] files[i]),
        len0 <= usize::MAX,
        len0 >= format@.block_num * format@.block_size,
        len0 >= format@.block_map_addr + 8 * format@.block_num,
        packed(format@, root, files, k, len0, img),
    ensures
        spec_add_files(format, root, files.subrange(k, files.len() as int), img) matches Ok(img2) && packed(
            format@,
            root,
            files,
            files.len() as int,
            len0,
            img2,
        ),
    decreases files.len() - k,
{
    let n = files.len() as int;
    let rest = files.subrange(k, n);
    if k == n {
        assert(rest.len() == 0);
    } else {
        assert(rest[0] == files[k]);
        assert(rest.drop_first() =~= files.subrange(k + 1, n));
        lemma_made_step(format@, root, files, k, len0, img);
        let img2 = spec_add_file_bytes(
            format@,
            encode_utf8(root),
            encode_utf8(files[k].path@),
            files[k].content@,
            img,
        )->Ok_0;
        lemma_made_files(format, root, files, k + 1, len0, img2);
    }
}

/// The search of the root directory of a made image for the name of file
/// `i`, from slot `j` on, finds that file's item.
pub(crate) proof fn lemma_search_made(
    p: TianMuParams,
    root: Seq<char>,
    files: Seq<SourceFile>,
    img: Seq<u8>,
    base: int,
    j: int,
    i: int,
    buf: Seq<u8>,
)
    requires
        0 <= base,
        0 <= j <= i < files.len(),
        i < slots_per_block(p),
        base + 32 * slots_per_block(p) <= img.len(),
        buf.len() == 32,
        forall|jj: int| 0 <= jj < files.len() ==> flat_file(p, root, #[trigger] files[jj]),
        forall|a: int, b: int|
            0 <= a < b < files.len() ==> part_after(root, files[a].path@) != part_after(root, files[b].path@),
        forall|jj: int| 0 <= jj <= i ==> #[trigger] slot_of(img, base, jj) == encode_entry(made_item(p, root, files, jj)),
    ensures
        search_slots(img, base + 32 * j, j, slots_per_block(p), buf, file_name_bytes(root, files[i])) == Ok::<
            Option<DirEntryView>,
            MakeError,
        >(Some(made_item(p, root, files, i))),
    decreases i - j,
{
    let pos = base + 32 * j;
    let key = file_name_bytes(root, files[i]);
    let item = made_item(p, root, files, j);
    lemma_full_read(img, pos, buf);
    lemma_decode_encode(item);
    assert(slot_of(img, base, j) == encode_entry(item));
    let part = part_after(root, files[j].path@);
    lemma_plain_chars_bytes(part);
    lemma_plain_field_matches_only(encode_utf8(part), key);
    if j < i {
        if encode_utf8(part) == key {
            lemma_encode_injective(part, part_after(root, files[i].path@));
            assert(false);
        }
        assert(base + 32 * (j + 1) == pos + 32);
        lemma_search_made(p, root, files, img, base, j + 1, i, read_over(img, pos, buf));
    }
}

/// What making an image from a tree of files directly under the root
/// gives: when the block map can be laid out, the files have plain,
/// different names of at most fifteen characters and contents that are
/// not empty, the root directory's one block has a slot for each, and
/// the blocks after the reserved ones hold all the contents, making the
/// image succeeds; looking up each file's name in the root directory finds
/// its item, whose first block is where the files before it end and whose
/// length is the contents' length; and the contents read back from their
/// blocks, which are chained in the map.
#[verifier::spinoff_prover]
pub proof fn lemma_made_image_holds_the_files(format: TianMu, root: Seq<char>, tree: SourceDir, img: Seq<u8>)
    requires
        params_ok(format@),
        img.len() <= usize::MAX,
        spec_init(format@, img) is Ok,
        tree.dirs@.len() == 0,
        forall|i: int| 0 <= i < tree.files@.len() ==> flat_file(format@, root, #[trigger] tree.files@[i]),
        forall|i: int, j: int|
            0 <= i < j < tree.files@.len() ==> part_after(root, tree.files@[i].path@) != part_after(
                root,
                tree.files@[j].path@,
            ),
        tree.files@.len() <= slots_per_block(format@),
        first_block_of(format@, tree.files@, tree.files@.len() as int) <= format@.block_num,
    ensures
        spec_make(format, root, tree, img) is Ok,
        forall|i: int|
            #![trigger made_item(format@, root, tree.files@, i)]
            #![trigger first_block_of(format@, tree.files@, i)]
            0 <= i < tree.files@.len() ==> {
                &&& spec_get_dir_item(
                    format@,
                    spec_make(format, root, tree, img)->Ok_0,
                    root_block(format@),
                    file_name_bytes(root, tree.files@[i]),
                ) == Ok::<Option<DirEntryView>, MakeError>(Some(made_item(format@, root, tree.files@, i)))
                &&& stored_from(
                    format@,
                    spec_make(format, root, tree, img)->Ok_0,
                    first_block_of(format@, tree.files@, i),
                    tree.files@[i].content@,
                )
            },
{
    let p = format@;
    let files = tree.files@;
    let n = files.len() as int;
    let bs = p.block_size as int;
    lemma_blocks_before_nonneg(p, files, n);
    lemma_made_start(p, root, files, img);
    let img1 = spec_init(p, img)->Ok_0;
    let img2 = spec_super_block(p, img1);
    let len0 = img1.len() as int;
    assert(files.subrange(0, n) =~= files);
    lemma_made_files(format, root, files, 0, len0, img2);
    let imgn = spec_add_files(format, root, files, img2)->Ok_0;
    assert(spec_trace_dirs(format, root, tree, 0, imgn) == Ok::<Seq<u8>, MakeError>(imgn));
    assert(spec_make(format, root, tree, img) == Ok::<Seq<u8>, MakeError>(imgn));
    let rb = root_block(p);
    let base = rb * bs;
    lemma_root_past_map(p);
    assert(reserved_blocks(p) == rb + 1);
    lemma_dir_block_past_map(p, rb);
    assert((rb + 1) * bs <= p.block_num * bs) by (nonlinear_arith)
        requires
            rb + 1 <= p.block_num,
            bs > 0,
    ;
    assert(base + bs == (rb + 1) * bs) by (nonlinear_arith)
        requires
            base == rb * bs,
    ;
    assert(u64_at(imgn, p.block_map_addr + 8 * rb) == END);
    lemma_single_block_chain(p, imgn, rb);
    assert(seq![rb].drop_first() =~= Seq::<usize>::empty());
    assert forall|i: int| 0 <= i < n implies {
        &&& spec_get_dir_item(p, imgn, rb, file_name_bytes(root, files[i])) == Ok::<
            Option<DirEntryView>,
            MakeError,
        >(Some(made_item(p, root, files, i)))
        &&& #[trigger] stored_from(p, imgn, first_block_of(p, files, i), files[i].content@)
    } by {
        assert(base + 32 * 0 == base);
        lemma_search_made(p, root, files, imgn, base, 0, i, zeros(32));
        assert(search_blocks(p, imgn, seq![rb], file_name_bytes(root, files[i])) == Ok::<
            Option<DirEntryView>,
            MakeError,
        >(Some(made_item(p, root, files, i))));
    }
    assert forall|i: int|
        #![trigger made_item(format@, root, tree.files@, i)]
        #![trigger first_block_of(format@, tree.files@, i)]
        0 <= i < tree.files@.len() implies {
            &&& spec_get_dir_item(
                format@,
                spec_make(format, root, tree, img)->Ok_0,
                root_block(format@),
                file_name_bytes(root, tree.files@[i]),
            ) == Ok::<Option<DirEntryView>, MakeError>(Some(made_item(format@, root, tree.files@, i)))
            &&& stored_from(
                format@,
                spec_make(format, root, tree, img)->Ok_0,
                first_block_of(format@, tree.files@, i),
                tree.files@[i].content@,
            )
        } by {
        assert(stored_from(p, imgn, first_block_of(p, files, i), files[i].content@));
    }
}

} // verus!
