//! Laws of growing a directory: the new block is linked after the last
//! block of the directory's chain in the block map.
use vstd::prelude::*;
use vstd::bytes::*;
use crate::image::{write_at, read_over, u64_at, zeros};
use crate::tianmu::{TianMuParams, params_ok, END, walk_to_end, spec_expend, spec_find_free};
use crate::require::MakeError;
use crate::laws::bytes::{lemma_full_read, lemma_u64_written, lemma_u64_elsewhere};
use crate::laws::block_map::{is_free, lemma_find_free_takes_first_free, free_blocks_below};

verus! {

/// The block-map entry of block `b`.
pub open spec fn entry_of(p: TianMuParams, img: Seq<u8>, b: int) -> u64 {
    u64_at(img, p.block_map_addr + 8 * b)
}

/// `path` is a chain of blocks as the block map links them: each block's
/// entry names the next block, and the last block's entry is `END`.
pub open spec fn map_chain(p: TianMuParams, img: Seq<u8>, path: Seq<usize>) -> bool {
    &&& path.len() > 0
    &&& forall|k: int|
        0 <= k < path.len() - 1 ==> #[trigger] entry_of(p, img, path[k] as int) == path[k + 1] as u64
            && entry_of(p, img, path[k] as int) != END
    &&& entry_of(p, img, path.last() as int) == END
}

/// A chain as the block map links it visits no block twice.
pub proof fn lemma_map_chain_distinct(p: TianMuParams, img: Seq<u8>, path: Seq<usize>, i: int, j: int)
    requires
        map_chain(p, img, path),
        0 <= i < j < path.len(),
    ensures
        path[i] != path[j],
    decreases path.len() - j,
{
    if path[i] == path[j] {
        assert(entry_of(p, img, path[i] as int) != END);
        if j + 1 < path.len() {
            assert(entry_of(p, img, path[j] as int) == path[j + 1] as u64);
            assert(entry_of(p, img, path[i] as int) == path[i + 1] as u64);
            lemma_map_chain_distinct(p, img, path, i + 1, j + 1);
        }
    }
}

/// A free block below `n` makes the free blocks below `n` non-empty.
proof fn lemma_free_below(p: TianMuParams, img: Seq<u8>, n: nat, b: int)
    requires
        0 <= b < n,
        is_free(p, img, b),
    ensures
        free_blocks_below(p, img, n).len() >= 1,
    decreases n,
{
    if b < n - 1 {
        lemma_free_below(p, img, (n - 1) as nat, b);
    }
}

/// The walk to a chain's end from the entry of block `b` follows the
/// block map: it passes the blocks of a chain that the map links from `b`
/// and ends at the entry of its last block.
proof fn lemma_walk_follows_map(
    p: TianMuParams,
    img: Seq<u8>,
    b: usize,
    flag: u64,
    buf: Seq<u8>,
    fuel: nat,
) -> (path: Seq<usize>)
    requires
        params_ok(p),
        img.len() % 8 == 0,
        p.block_map_addr + 8 * b + 8 <= img.len(),
        flag == entry_of(p, img, b as int),
        buf.len() == 8,
        walk_to_end(p, img, p.block_map_addr + 8 * b, flag, buf, fuel) is Ok,
    ensures
        path[0] == b,
        map_chain(p, img, path),
        walk_to_end(p, img, p.block_map_addr + 8 * b, flag, buf, fuel) == Ok::<int, MakeError>(
            p.block_map_addr + 8 * path.last(),
        ),
        p.block_map_addr + 8 * path.last() + 8 <= img.len(),
        forall|k: int| 0 <= k < path.len() ==> p.block_map_addr + 8 * #[trigger] path[k] + 8 <= img.len(),
    decreases fuel,
{
    if flag == END {
        seq![b]
    } else {
        let a2 = flag * 8 + p.block_map_addr;
        let b2 = flag as usize;
        assert(a2 == p.block_map_addr + 8 * b2);
        assert(a2 % 8 == 0);
        assert(a2 + 8 <= img.len());
        lemma_full_read(img, a2, buf);
        let r = read_over(img, a2, buf);
        assert(r == img.subrange(a2, a2 + 8));
        let rest = lemma_walk_follows_map(p, img, b2, spec_u64_from_le_bytes(r), r, (fuel - 1) as nat);
        let path = seq![b] + rest;
        assert(path[0] == b);
        assert forall|k: int| 0 <= k < path.len() - 1 implies #[trigger] entry_of(
            p,
            img,
            path[k] as int,
        ) == path[k + 1] as u64 && entry_of(p, img, path[k] as int) != END by {
            if k > 0 {
                assert(path[k] == rest[k - 1]);
                assert(path[k + 1] == rest[k]);
            } else {
                assert(path[1] == rest[0]);
            }
        }
        assert(path.last() == rest.last());
        assert forall|k: int| 0 <= k < path.len() implies p.block_map_addr + 8 * #[trigger] path[k] + 8
            <= img.len() by {
            if k > 0 {
                assert(path[k] == rest[k - 1]);
            }
        }
        path
    }
}

/// Growing a directory keeps its chain and appends one block: in an image
/// that holds the whole block map and whose length is a whole number of
/// map entries, when growing the directory that starts at block `idx`
/// succeeds with block `next`, the block map links a chain from `idx` in
/// the image before; `next` was the first free block; the entry of that chain's last block
/// now names `next`, and `next`'s entry is `END`; no other byte changes;
/// and so (when no link of the chain is to block 0, whose entry would
/// read as free) the chain from `idx` is the old chain followed by `next`.
#[verifier::spinoff_prover]
pub proof fn lemma_grow_appends_block(p: TianMuParams, img: Seq<u8>, idx: usize)
    requires
        params_ok(p),
        img.len() >= p.block_map_addr + 8 * p.block_num,
        img.len() % 8 == 0,
        spec_expend(p, img, idx) is Ok,
    ensures
        ({
            let (next, grown) = spec_expend(p, img, idx)->Ok_0;
            exists|path: Seq<usize>|
                #[trigger] map_chain(p, img, path) && path[0] == idx && {
                    let lastb = path.last() as int;
                    &&& next < p.block_num
                    &&& is_free(p, img, next as int)
                    &&& forall|b: int| 0 <= b < next ==> !#[trigger] is_free(p, img, b)
                    &&& grown.len() == img.len()
                    &&& entry_of(p, grown, lastb) == next as u64
                    &&& entry_of(p, grown, next as int) == END
                    &&& forall|i: int|
                        0 <= i < img.len() && !(p.block_map_addr + 8 * lastb <= i < p.block_map_addr + 8
                            * lastb + 8) && !(p.block_map_addr + 8 * next <= i < p.block_map_addr + 8
                            * next + 8) ==> #[trigger] grown[i] == img[i]
                    &&& (forall|k: int| 0 < k < path.len() ==> #[trigger] path[k] != 0) ==> map_chain(
                        p,
                        grown,
                        path.push(next),
                    )
                }
        }),
{
    let map = p.block_map_addr as int;
    let a0 = map + 8 * idx;
    assert(a0 % 8 == 0);
    assert(a0 + 8 <= img.len());
    lemma_full_read(img, a0, zeros(8));
    let b0 = read_over(img, a0, zeros(8));
    let f0 = spec_u64_from_le_bytes(b0);
    assert(f0 == entry_of(p, img, idx as int));
    let path = lemma_walk_follows_map(p, img, idx, f0, b0, img.len());
    let lastb = path.last() as int;
    let last = map + 8 * lastb;
    lemma_find_free_takes_first_free(p, img, 1);
    let bl = spec_find_free(p, img, 1)->Ok_0;
    let next = bl[0];
    assert(next < p.block_num);
    assert(is_free(p, img, next as int));
    assert forall|b: int| 0 <= b < next implies !#[trigger] is_free(p, img, b) by {
        if is_free(p, img, b) {
            lemma_free_below(p, img, next as nat, b);
            assert(bl.last() == next);
            assert(free_blocks_below(p, img, (next + 1) as nat) == free_blocks_below(p, img, next as nat).push(
                next,
            ));
        }
    }
    let linked = write_at(img, last, spec_u64_to_le_bytes(next as u64));
    let an = map + 8 * next;
    let grown = write_at(linked, an, spec_u64_to_le_bytes(END));
    assert(spec_expend(p, img, idx)->Ok_0 == (next, grown));
    lemma_auto_spec_u64_to_from_le_bytes();
    assert(spec_u64_to_le_bytes(next as u64).len() == 8);
    assert(spec_u64_to_le_bytes(END).len() == 8);
    assert(an + 8 <= img.len());
    assert(linked.len() == img.len());
    assert(grown.len() == img.len());
    // The last block's entry is END and `next`'s is zero: they differ.
    assert(lastb != next);
    assert(last + 8 <= an || an + 8 <= last);
    lemma_u64_written(img, last, next as u64);
    lemma_u64_elsewhere(linked, an, spec_u64_to_le_bytes(END), last);
    lemma_u64_written(linked, an, END);
    assert(entry_of(p, grown, lastb) == next as u64);
    assert(entry_of(p, grown, next as int) == END);
    if forall|k: int| 0 < k < path.len() ==> #[trigger] path[k] != 0 {
        let np = path.push(next);
        assert forall|k: int| 0 <= k < np.len() - 1 implies #[trigger] entry_of(p, grown, np[k] as int)
            == np[k + 1] as u64 && entry_of(p, grown, np[k] as int) != END by {
            if k < path.len() - 1 {
                let bk = path[k] as int;
                assert(np[k] == path[k]);
                assert(np[k + 1] == path[k + 1]);
                lemma_map_chain_distinct(p, img, path, k, path.len() - 1);
                assert(bk != next) by {
                    if bk == next {
                        assert(entry_of(p, img, bk) == path[k + 1] as u64);
                        assert(path[k + 1] != 0);
                    }
                }
                assert(map + 8 * bk + 8 <= last || last + 8 <= map + 8 * bk);
                assert(map + 8 * bk + 8 <= an || an + 8 <= map + 8 * bk);
                assert(map + 8 * bk + 8 <= img.len());
                lemma_u64_elsewhere(img, last, spec_u64_to_le_bytes(next as u64), map + 8 * bk);
                lemma_u64_elsewhere(linked, an, spec_u64_to_le_bytes(END), map + 8 * bk);
                assert(entry_of(p, img, path[k] as int) == path[k + 1] as u64 && entry_of(
                    p,
                    img,
                    path[k] as int,
                ) != END);
                assert(entry_of(p, grown, bk) == entry_of(p, img, bk));
            } else {
                assert(np[k] == path.last());
                assert(np[k + 1] == next);
                assert(next as u64 != END);
            }
        }
        assert(np.last() == next);
        assert(map_chain(p, grown, np));
    }
    assert(map_chain(p, img, path));
}

} // verus!
