//! Laws of storing a file's contents in blocks.
use vstd::prelude::*;
use crate::image::{write_at, u64_at};
use crate::tianmu::{TianMuParams, params_ok, spec_fill, next_link, blocks_in_range, root_block,
    spec_find_free, reserved_blocks, spec_store, spec_write_chunks, chunk, blocks_for};
use crate::laws::bytes::same_bytes;
use crate::laws::block_map::{distinct, in_entry_of, lemma_fill_links, is_free,
    lemma_find_free_takes_first_free, lemma_root_past_map, lemma_taken_blocks_past_map};

verus! {

/// Piece `k` of `data`, for `k` below the number of blocks the data
/// occupies, is a proper range of `data` of at most `bs` bytes.
pub(crate) proof fn lemma_chunk_fits(data: Seq<u8>, bs: int, k: int)
    requires
        bs > 0,
        0 <= k < blocks_for(data.len() as int, bs),
    ensures
        k * bs < data.len(),
        chunk(data, bs, k).len() <= bs,
        chunk(data, bs, k).len() > 0,
{
    let len = data.len() as int;
    let num = blocks_for(len, bs);
    assert(k * bs < len) by (nonlinear_arith)
        requires
            bs > 0,
            0 <= k < num,
            num == (len + bs - 1) / bs,
    {
        assert(num * bs <= len + bs - 1);
        assert(k * bs + bs <= num * bs);
    }
    assert((k + 1) * bs == k * bs + bs) by (nonlinear_arith);
}

/// Blocks in ascending order have disjoint ranges of `bs` bytes.
pub(crate) proof fn lemma_blocks_apart(a: int, c: int, bs: int)
    requires
        0 <= a < c,
        bs > 0,
    ensures
        a * bs + bs <= c * bs,
        0 <= a * bs,
{
    assert(a * bs + bs <= c * bs) by (nonlinear_arith)
        requires
            a < c,
            bs > 0,
    ;
    assert(0 <= a * bs) by (nonlinear_arith)
        requires
            0 <= a,
            bs > 0,
    ;
}

/// Writing the first `m` pieces of `data` into ascending blocks: each piece
/// reads back from its block, the image does not shrink, and the bytes
/// before the first block are untouched.
#[verifier::spinoff_prover]
pub(crate) proof fn lemma_write_chunks(p: TianMuParams, img: Seq<u8>, blocks: Seq<usize>, data: Seq<u8>, m: int)
    requires
        p.block_size > 0,
        0 <= m <= blocks.len(),
        m <= blocks_for(data.len() as int, p.block_size as int),
        forall|i: int, j: int| 0 <= i < j < blocks.len() ==> #[trigger] blocks[i] < #[trigger] blocks[j],
    ensures
        spec_write_chunks(p, img, blocks, data, m).len() >= img.len(),
        (forall|k: int| 0 <= k < blocks.len() ==> (#[trigger] blocks[k] + 1) * p.block_size <= img.len())
            ==> spec_write_chunks(p, img, blocks, data, m).len() == img.len(),
        forall|k: int|
            0 <= k < m ==> blocks[k] * p.block_size + chunk(data, p.block_size as int, k).len()
                <= spec_write_chunks(p, img, blocks, data, m).len(),
        forall|k: int|
            0 <= k < m ==> (#[trigger] spec_write_chunks(p, img, blocks, data, m)).subrange(
                blocks[k] * p.block_size,
                blocks[k] * p.block_size + chunk(data, p.block_size as int, k).len(),
            ) == chunk(data, p.block_size as int, k),
        m > 0 ==> forall|i: int|
            0 <= i < img.len() && i < blocks[0] * p.block_size ==> #[trigger] spec_write_chunks(
                p,
                img,
                blocks,
                data,
                m,
            )[i] == img[i],
        m > 0 ==> forall|i: int|
            0 <= i < img.len() && (blocks[m - 1] + 1) * p.block_size <= i ==> #[trigger] spec_write_chunks(
                p,
                img,
                blocks,
                data,
                m,
            )[i] == img[i],
    decreases m,
{
    let bs = p.block_size as int;
    if m > 0 {
        lemma_write_chunks(p, img, blocks, data, m - 1);
        let prev = spec_write_chunks(p, img, blocks, data, m - 1);
        let cur = spec_write_chunks(p, img, blocks, data, m);
        let c = chunk(data, bs, m - 1);
        lemma_chunk_fits(data, bs, m - 1);
        let at = blocks[m - 1] * bs;
        assert(cur == write_at(prev, at, c));
        if forall|k: int| 0 <= k < blocks.len() ==> (#[trigger] blocks[k] + 1) * bs <= img.len() {
            assert((blocks[m - 1] + 1) * bs <= img.len());
            assert((blocks[m - 1] + 1) * bs == at + bs) by (nonlinear_arith)
                requires
                    at == blocks[m - 1] * bs,
            ;
        }
        assert((blocks[m - 1] + 1) * bs == at + bs) by (nonlinear_arith)
            requires
                at == blocks[m - 1] * bs,
        ;
        if m > 1 {
            lemma_blocks_apart(blocks[m - 2] as int, blocks[m - 1] as int, bs);
            assert((blocks[m - 2] + 1) * bs == blocks[m - 2] * bs + bs) by (nonlinear_arith);
        }
        assert forall|i: int| 0 <= i < img.len() && (blocks[m - 1] + 1) * bs <= i implies #[trigger] spec_write_chunks(
            p,
            img,
            blocks,
            data,
            m,
        )[i] == img[i] by {
            if m > 1 {
                assert(prev[i] == img[i]);
            }
        }
        assert forall|k: int| 0 <= k < m implies blocks[k] * bs + chunk(data, bs, k).len() <= cur.len() by {
            lemma_chunk_fits(data, bs, k);
            lemma_blocks_apart(0, blocks[k] as int + 1, bs);
        }
        assert forall|k: int| 0 <= k < m implies (#[trigger] spec_write_chunks(p, img, blocks, data, m)).subrange(
            blocks[k] * bs,
            blocks[k] * bs + chunk(data, bs, k).len(),
        ) == chunk(data, bs, k) by {
            lemma_chunk_fits(data, bs, k);
            if k < m - 1 {
                lemma_blocks_apart(blocks[k] as int, blocks[m - 1] as int, bs);
                assert(cur.subrange(blocks[k] * bs, blocks[k] * bs + chunk(data, bs, k).len())
                    =~= prev.subrange(blocks[k] * bs, blocks[k] * bs + chunk(data, bs, k).len()));
            } else {
                lemma_blocks_apart(0, blocks[k] as int + 1, bs);
                assert(cur.subrange(at, at + c.len()) =~= c);
            }
        }
        if m > 1 {
            lemma_blocks_apart(blocks[0] as int, blocks[m - 1] as int, bs);
        }
        assert forall|i: int| 0 <= i < img.len() && i < blocks[0] * bs implies #[trigger] spec_write_chunks(
            p,
            img,
            blocks,
            data,
            m,
        )[i] == img[i] by {
            if m > 1 {
                assert(prev[i] == img[i]);
            }
        }
    }
}

/// What storing a file's contents leaves: in an image that holds the
/// whole block map and whose reserved blocks (the super block, the map and
/// the root directory's first block) are marked used, the contents are
/// stored in the first free blocks, piece by piece in order, each piece
/// reads back from its block, the blocks are linked into one chain in the
/// map, and the result names the chain's first block.
#[verifier::spinoff_prover]
pub proof fn lemma_stored_contents_read_back(p: TianMuParams, img: Seq<u8>, data: Seq<u8>)
    requires
        params_ok(p),
        img.len() >= p.block_map_addr + 8 * p.block_num,
        forall|b: int| 0 <= b < reserved_blocks(p) ==> !#[trigger] is_free(p, img, b),
        spec_store(p, img, data) is Ok,
    ensures
        ({
            let num = blocks_for(data.len() as int, p.block_size as int);
            let blocks = spec_find_free(p, img, num)->Ok_0;
            let (first, img2) = spec_store(p, img, data)->Ok_0;
            &&& spec_find_free(p, img, num) is Ok
            &&& blocks.len() == num
            &&& first == blocks[0]
            &&& forall|k: int|
                0 <= k < num ==> img2.subrange(
                    blocks[k] * p.block_size,
                    blocks[k] * p.block_size + chunk(data, p.block_size as int, k).len(),
                ) == #[trigger] chunk(data, p.block_size as int, k)
            &&& forall|k: int|
                0 <= k < num ==> u64_at(img2, p.block_map_addr + 8 * blocks[k]) == #[trigger] next_link(
                    blocks,
                    k,
                )
        }),
{
    let bs = p.block_size as int;
    let num = blocks_for(data.len() as int, bs);
    let blocks = spec_find_free(p, img, num)->Ok_0;
    let written = spec_write_chunks(p, img, blocks, data, num);
    let img2 = spec_fill(p, written, blocks);
    assert(num >= 1);
    lemma_find_free_takes_first_free(p, img, num);
    assert(spec_store(p, img, data)->Ok_0 == (blocks[0], img2));
    lemma_write_chunks(p, img, blocks, data, num);
    assert(blocks_in_range(p, blocks));
    assert(distinct(blocks)) by {
        assert forall|i: int, j: int| 0 <= i < j < blocks.len() implies blocks[i] != blocks[j] by {
            assert(blocks[i] < blocks[j]);
        }
    }
    lemma_fill_links(p, written, blocks);
    // Every block taken lies past the block map.
    lemma_taken_blocks_past_map(p, img, blocks);
    assert forall|k: int| 0 <= k < num implies img2.subrange(
        blocks[k] * bs,
        blocks[k] * bs + chunk(data, bs, k).len(),
    ) == #[trigger] chunk(data, bs, k) by {
        lemma_chunk_fits(data, bs, k);
        let lo = blocks[k] * bs;
        let hi = lo + chunk(data, bs, k).len();
        assert(written.subrange(lo, hi) == chunk(data, bs, k));
        assert(hi <= written.len());
        assert(img2.len() == written.len());
        assert forall|i: int| lo <= i < hi implies #[trigger] img2[i] == written[i] by {
            if in_entry_of(p, blocks, i) {
                let j = choose|j: int|
                    0 <= j < blocks.len() && p.block_map_addr + 8 * #[trigger] blocks[j] <= i
                        < p.block_map_addr + 8 * blocks[j] + 8;
                assert(blocks[j] < p.block_num);
                assert(false);
            }
        }
        assert(img2.subrange(lo, hi) =~= written.subrange(lo, hi));
    }
}

/// Storing a file's contents in an image that spans all blocks and whose
/// reserved blocks are marked used keeps the image's length, the root
/// directory's block and its map entry, and every byte before the first
/// block taken or after the last, other than the map entries of the blocks
/// taken.
#[verifier::spinoff_prover]
pub(crate) proof fn lemma_store_keeps_root(p: TianMuParams, img: Seq<u8>, data: Seq<u8>)
    requires
        params_ok(p),
        p.block_num * p.block_size <= img.len(),
        img.len() >= p.block_map_addr + 8 * p.block_num,
        forall|b: int| 0 <= b < reserved_blocks(p) ==> !#[trigger] is_free(p, img, b),
        spec_store(p, img, data) is Ok,
    ensures
        ({
            let img2 = spec_store(p, img, data)->Ok_0.1;
            let rb = root_block(p) as int;
            &&& img2.len() == img.len()
            &&& same_bytes(img, img2, rb * p.block_size, rb * p.block_size + p.block_size)
            &&& same_bytes(img, img2, p.block_map_addr + 8 * rb, p.block_map_addr + 8 * rb + 8)
            &&& forall|i: int|
                0 <= i < img.len() && (i < spec_find_free(
                    p,
                    img,
                    blocks_for(data.len() as int, p.block_size as int),
                )->Ok_0[0] * p.block_size || (spec_find_free(
                    p,
                    img,
                    blocks_for(data.len() as int, p.block_size as int),
                )->Ok_0.last() + 1) * p.block_size <= i) && !in_entry_of(
                    p,
                    spec_find_free(p, img, blocks_for(data.len() as int, p.block_size as int))->Ok_0,
                    i,
                ) ==> #[trigger] img2[i] == img[i]
        }),
{
    let bs = p.block_size as int;
    let num = blocks_for(data.len() as int, bs);
    let blocks = spec_find_free(p, img, num)->Ok_0;
    let written = spec_write_chunks(p, img, blocks, data, num);
    let img2 = spec_fill(p, written, blocks);
    let rb = root_block(p) as int;
    lemma_find_free_takes_first_free(p, img, num);
    lemma_root_past_map(p);
    assert(spec_store(p, img, data)->Ok_0.1 == img2);
    assert forall|k: int| 0 <= k < blocks.len() implies (#[trigger] blocks[k] + 1) * bs <= img.len() by {
        let b = blocks[k] as int;
        assert((b + 1) * bs <= p.block_num * bs) by (nonlinear_arith)
            requires
                b < p.block_num,
                bs > 0,
        ;
    }
    lemma_write_chunks(p, img, blocks, data, num);
    assert(blocks_in_range(p, blocks));
    assert(distinct(blocks)) by {
        assert forall|i: int, j: int| 0 <= i < j < blocks.len() implies blocks[i] != blocks[j] by {
            assert(blocks[i] < blocks[j]);
        }
    }
    lemma_fill_links(p, written, blocks);
    // The first block taken is past the root directory's block.
    let b0 = blocks[0] as int;
    if b0 < reserved_blocks(p) {
        assert(!is_free(p, img, b0));
        assert(false);
    }
    assert((rb + 1) * bs <= b0 * bs) by (nonlinear_arith)
        requires
            rb + 1 <= b0,
            bs > 0,
    ;
    assert(rb * bs + bs == (rb + 1) * bs) by (nonlinear_arith);
    assert forall|i: int|
        (rb * bs <= i < rb * bs + bs || p.block_map_addr + 8 * rb <= i < p.block_map_addr + 8 * rb + 8)
            implies #[trigger] img2[i] == img[i] by {
        if in_entry_of(p, blocks, i) {
            let j = choose|j: int|
                0 <= j < blocks.len() && p.block_map_addr + 8 * #[trigger] blocks[j] <= i
                    < p.block_map_addr + 8 * blocks[j] + 8;
            assert(blocks[j] < p.block_num);
            if blocks[j] as int >= reserved_blocks(p) {
            } else {
                assert(!is_free(p, img, blocks[j] as int));
                assert(false);
            }
            assert(false);
        }
        assert(written[i] == img[i]);
    }
    assert(blocks.last() == blocks[num - 1]);
    assert forall|i: int|
        0 <= i < img.len() && (i < b0 * bs || (blocks.last() + 1) * bs <= i) && !in_entry_of(p, blocks, i) implies #[trigger] img2[i]
        == img[i] by {
        assert(written[i] == img[i]);
    }
}

} // verus!
