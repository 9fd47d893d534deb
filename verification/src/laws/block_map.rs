//! Laws of the block map: linking chains, taking free blocks, and the
//! layout of an empty map.
use vstd::prelude::*;
use vstd::bytes::*;
use crate::image::{write_at, read_over, u64_at, zeros};
use crate::tianmu::{TianMuParams, params_ok, spec_fill, next_link, blocks_in_range, END,
    root_block, root_offset_for, scan_free, spec_find_free, spec_init, ones, reserved_blocks,
    map_slots, entries_per_block};
use crate::require::MakeError;
use crate::laws::bytes::{lemma_u64_elsewhere, lemma_u64_written, lemma_full_read,
    lemma_end_and_zero_bytes};

verus! {

/// No block occurs twice.
pub open spec fn distinct(blocks: Seq<usize>) -> bool {
    forall|i: int, j: int| 0 <= i < j < blocks.len() ==> blocks[i] != blocks[j]
}

/// Whether byte `i` lies in the block-map entry of one of `blocks`.
pub open spec fn in_entry_of(p: TianMuParams, blocks: Seq<usize>, i: int) -> bool {
    exists|k: int|
        0 <= k < blocks.len() && p.block_map_addr + 8 * #[trigger] blocks[k] <= i < p.block_map_addr + 8
            * blocks[k] + 8
}

/// Linking distinct blocks into a chain, in an image that holds the whole
/// block map, sets the entry of each block to the next block (the last to
/// `END`), keeps the image's length, and changes no other byte.
#[verifier::spinoff_prover]
pub proof fn lemma_fill_links(p: TianMuParams, img: Seq<u8>, blocks: Seq<usize>)
    requires
        params_ok(p),
        img.len() >= p.block_map_addr + 8 * p.block_num,
        blocks_in_range(p, blocks),
        distinct(blocks),
    ensures
        spec_fill(p, img, blocks).len() == img.len(),
        forall|k: int|
            0 <= k < blocks.len() ==> u64_at(spec_fill(p, img, blocks), p.block_map_addr + 8 * blocks[k])
                == #[trigger] next_link(blocks, k),
        forall|i: int|
            0 <= i < img.len() && !in_entry_of(p, blocks, i) ==> #[trigger] spec_fill(p, img, blocks)[i]
                == img[i],
    decreases blocks.len(),
{
    if blocks.len() > 0 {
        let rest = blocks.drop_first();
        assert(blocks_in_range(p, rest)) by {
            assert forall|k: int| 0 <= k < rest.len() implies #[trigger] rest[k] < p.block_num by {
                assert(rest[k] == blocks[k + 1]);
            }
        }
        assert(distinct(rest)) by {
            assert forall|i: int, j: int| 0 <= i < j < rest.len() implies rest[i] != rest[j] by {
                assert(rest[i] == blocks[i + 1] && rest[j] == blocks[j + 1]);
            }
        }
        lemma_fill_links(p, img, rest);
        let mid = spec_fill(p, img, rest);
        let a0 = p.block_map_addr + 8 * blocks[0];
        let v0 = spec_u64_to_le_bytes(next_link(blocks, 0));
        lemma_auto_spec_u64_to_from_le_bytes();
        assert(blocks[0] < p.block_num);
        lemma_u64_written(mid, a0, next_link(blocks, 0));
        assert forall|k: int|
            0 <= k < blocks.len() implies u64_at(spec_fill(p, img, blocks), p.block_map_addr + 8
            * blocks[k]) == #[trigger] next_link(blocks, k) by {
            if k > 0 {
                assert(blocks[k] == rest[k - 1]);
                assert(next_link(rest, k - 1) == next_link(blocks, k));
                assert(blocks[k] < p.block_num);
                assert(blocks[k] != blocks[0]);
                lemma_u64_elsewhere(mid, a0, v0, p.block_map_addr + 8 * blocks[k]);
            }
        }
        assert forall|i: int|
            0 <= i < img.len() && !in_entry_of(p, blocks, i) implies #[trigger] spec_fill(
            p,
            img,
            blocks,
        )[i] == img[i] by {
            if !(a0 <= i < a0 + 8) {
            } else {
                assert(blocks[0] == blocks[0]);
                assert(false);
            }
            if in_entry_of(p, rest, i) {
                let k = choose|k: int|
                    0 <= k < rest.len() && p.block_map_addr + 8 * #[trigger] rest[k] <= i
                        < p.block_map_addr + 8 * rest[k] + 8;
                assert(rest[k] == blocks[k + 1]);
                assert(false);
            }
            assert(mid[i] == img[i]);
        }
    }
}

/// The entry of block `b` in the block map says the block is free.
pub open spec fn is_free(p: TianMuParams, img: Seq<u8>, b: int) -> bool {
    u64_at(img, p.block_map_addr + 8 * b) == 0
}

/// The free blocks among the first `n`, in ascending order.
pub open spec fn free_blocks_below(p: TianMuParams, img: Seq<u8>, n: nat) -> Seq<usize>
    decreases n,
{
    if n == 0 {
        Seq::empty()
    } else if is_free(p, img, n - 1) {
        free_blocks_below(p, img, (n - 1) as nat).push((n - 1) as usize)
    } else {
        free_blocks_below(p, img, (n - 1) as nat)
    }
}

/// The free blocks below `n` are free, lie below `n`, ascend, and grow in
/// number with `n`, by at most one at each step.
pub(crate) proof fn lemma_free_blocks_below(p: TianMuParams, img: Seq<u8>, n: nat, m: nat)
    requires
        m <= n <= usize::MAX + 1,
    ensures
        free_blocks_below(p, img, m).len() <= free_blocks_below(p, img, n).len() <= free_blocks_below(
            p,
            img,
            m,
        ).len() + (n - m),
        forall|k: int|
            0 <= k < free_blocks_below(p, img, n).len() ==> is_free(
                p,
                img,
                #[trigger] free_blocks_below(p, img, n)[k] as int,
            ) && free_blocks_below(p, img, n)[k] < n,
        forall|i: int, j: int|
            0 <= i < j < free_blocks_below(p, img, n).len() ==> #[trigger] free_blocks_below(p, img, n)[i]
                < #[trigger] free_blocks_below(p, img, n)[j],
    decreases n,
{
    if n > 0 {
        if m < n {
            lemma_free_blocks_below(p, img, (n - 1) as nat, m);
        } else {
            lemma_free_blocks_below(p, img, (n - 1) as nat, (n - 1) as nat);
        }
    }
}

/// The scan over the block map from block `i`, having found the free
/// blocks below `i` (fewer than `num`), ends as the free blocks decide.
pub(crate) proof fn lemma_scan_takes_first_free(p: TianMuParams, img: Seq<u8>, num: int, i: int, buf: Seq<u8>)
    requires
        params_ok(p),
        img.len() >= p.block_map_addr + 8 * p.block_num,
        0 <= i <= p.block_num,
        buf.len() == 8,
        free_blocks_below(p, img, i as nat).len() < num,
    ensures
        (scan_free(p, img, num, i, p.block_map_addr + 8 * i, buf, free_blocks_below(p, img, i as nat))
            is Ok) <==> free_blocks_below(p, img, p.block_num as nat).len() >= num,
        scan_free(p, img, num, i, p.block_map_addr + 8 * i, buf, free_blocks_below(p, img, i as nat)) matches Ok(
            v,
        ) ==> v.len() == num && v.len() > 0 && v.last() < p.block_num && v == free_blocks_below(
            p,
            img,
            (v.last() + 1) as nat,
        ),
    decreases p.block_num - i,
{
    let pos = p.block_map_addr + 8 * i;
    let found = free_blocks_below(p, img, i as nat);
    lemma_free_blocks_below(p, img, p.block_num as nat, i as nat);
    if i < p.block_num {
        lemma_full_read(img, pos, buf);
        let b2 = read_over(img, pos, buf);
        assert(b2 == img.subrange(pos, pos + 8));
        let f2 = free_blocks_below(p, img, (i + 1) as nat);
        assert(f2 == (if spec_u64_from_le_bytes(b2) == 0 { found.push(i as usize) } else { found }));
        lemma_free_blocks_below(p, img, p.block_num as nat, (i + 1) as nat);
        if f2.len() != num {
            assert(pos + 8 == p.block_map_addr + 8 * (i + 1));
            lemma_scan_takes_first_free(p, img, num, i + 1, b2);
        } else {
            assert(f2.last() == i);
        }
    }
}

/// What a request for free blocks receives: when the block map lies inside
/// the image and at least one block is asked for, the request succeeds
/// exactly when the map has that many free blocks, and then it receives
/// the first free ones: they are free, ascending, and every free block up
/// to the last one received is among them.
pub proof fn lemma_find_free_takes_first_free(p: TianMuParams, img: Seq<u8>, num: int)
    requires
        params_ok(p),
        img.len() >= p.block_map_addr + 8 * p.block_num,
        num >= 1,
    ensures
        (spec_find_free(p, img, num) is Ok) <==> free_blocks_below(p, img, p.block_num as nat).len() >= num,
        spec_find_free(p, img, num) matches Ok(v) ==> {
            &&& v.len() == num
            &&& v == free_blocks_below(p, img, (v.last() + 1) as nat)
            &&& forall|k: int| 0 <= k < v.len() ==> is_free(p, img, #[trigger] v[k] as int) && v[k] < p.block_num
            &&& forall|i: int, j: int| 0 <= i < j < v.len() ==> #[trigger] v[i] < #[trigger] v[j]
        },
{
    assert(free_blocks_below(p, img, 0) =~= Seq::<usize>::empty());
    assert(zeros(8).len() == 8);
    lemma_scan_takes_first_free(p, img, num, 0, zeros(8));
    assert(p.block_map_addr + 8 * 0 == p.block_map_addr);
    if spec_find_free(p, img, num) is Ok {
        let v = spec_find_free(p, img, num)->Ok_0;
        lemma_free_blocks_below(p, img, (v.last() + 1) as nat, (v.last() + 1) as nat);
    }
}

/// The block map after it is laid out: the entries of the reserved blocks
/// (those before the root directory, and its first block) are `END`, the
/// entry of every other block is free, and the image holds the whole map.
pub proof fn lemma_init_marks_reserved(p: TianMuParams, img: Seq<u8>)
    requires
        params_ok(p),
    ensures
        spec_init(p, img) matches Ok(img2) ==> {
            &&& img2.len() >= p.block_map_addr + 8 * p.block_num
            &&& forall|b: int|
                0 <= b < reserved_blocks(p) ==> #[trigger] u64_at(img2, p.block_map_addr + 8 * b) == END
            &&& forall|b: int| reserved_blocks(p) <= b < p.block_num ==> #[trigger] is_free(p, img2, b)
        },
{
    if spec_init(p, img) is Ok {
        let img2 = spec_init(p, img)->Ok_0;
        let epb = entries_per_block(p);
        let bn = p.block_num as int;
        let ms = map_slots(p);
        let res = reserved_blocks(p);
        let a = p.block_map_addr as int;
        assert(ms >= bn) by (nonlinear_arith)
            requires
                epb >= 1,
                bn >= 0,
                ms == (bn + epb - 1) / epb * epb,
        {
            let q = (bn + epb - 1) / epb;
            assert(q * epb > bn + epb - 1 - epb);
        }
        assert(res >= 1) by {
            assert(p.root_offset / p.block_size >= 0);
        }
        let cleared = write_at(img, 0, zeros((p.block_num * p.block_size) as nat));
        let mapped = write_at(cleared, a, zeros((8 * ms) as nat));
        assert(img2 == write_at(mapped, a, ones((8 * res) as nat)));
        assert(img2.len() >= a + 8 * bn);
        lemma_end_and_zero_bytes();
        assert forall|b: int| 0 <= b < res implies #[trigger] u64_at(img2, a + 8 * b) == END by {
            assert(img2.subrange(a + 8 * b, a + 8 * b + 8) =~= ones(8));
        }
        assert forall|b: int| res <= b < bn implies #[trigger] is_free(p, img2, b) by {
            assert(img2.subrange(a + 8 * b, a + 8 * b + 8) =~= zeros(8));
        }
    }
}

/// The free blocks below `n` when exactly the blocks from `s` on are
/// free: those from `s` up to `n`.
pub(crate) proof fn lemma_free_from(p: TianMuParams, img: Seq<u8>, s: int, n: nat)
    requires
        0 <= s <= n <= p.block_num,
        forall|b: int| 0 <= b < s ==> !#[trigger] is_free(p, img, b),
        forall|b: int| s <= b < p.block_num ==> #[trigger] is_free(p, img, b),
    ensures
        free_blocks_below(p, img, n) == Seq::new((n - s) as nat, |i: int| (s + i) as usize),
    decreases n,
{
    if n == s {
        lemma_none_free(p, img, s, n);
        assert(free_blocks_below(p, img, n) =~= Seq::new(0, |i: int| (s + i) as usize));
    } else {
        lemma_free_from(p, img, s, (n - 1) as nat);
        assert(is_free(p, img, n - 1));
        assert(free_blocks_below(p, img, n) =~= Seq::new((n - s) as nat, |i: int| (s + i) as usize));
    }
}

/// No block below `n` is free when no block below `s` is, and `n <= s`.
pub(crate) proof fn lemma_none_free(p: TianMuParams, img: Seq<u8>, s: int, n: nat)
    requires
        n <= s,
        forall|b: int| 0 <= b < s ==> !#[trigger] is_free(p, img, b),
    ensures
        free_blocks_below(p, img, n).len() == 0,
    decreases n,
{
    if n > 0 {
        assert(!is_free(p, img, n - 1));
        lemma_none_free(p, img, s, (n - 1) as nat);
    }
}

/// When exactly the blocks from `s` on are free, a request for `num`
/// blocks receives `s`, `s + 1`, and so on, in order.
pub proof fn lemma_first_free_from(p: TianMuParams, img: Seq<u8>, s: int, num: int)
    requires
        params_ok(p),
        img.len() >= p.block_map_addr + 8 * p.block_num,
        0 <= s,
        num >= 1,
        s + num <= p.block_num,
        forall|b: int| 0 <= b < s ==> !#[trigger] is_free(p, img, b),
        forall|b: int| s <= b < p.block_num ==> #[trigger] is_free(p, img, b),
    ensures
        spec_find_free(p, img, num) == Ok::<Seq<usize>, MakeError>(Seq::new(num as nat, |i: int| (s + i) as usize)),
{
    lemma_free_from(p, img, s, p.block_num as nat);
    lemma_find_free_takes_first_free(p, img, num);
    let v = spec_find_free(p, img, num)->Ok_0;
    let last = v.last();
    if last + 1 < s {
        lemma_none_free(p, img, s, (last + 1) as nat);
        assert(false);
    }
    lemma_free_from(p, img, s, (last + 1) as nat);
    assert(v =~= Seq::new(num as nat, |i: int| (s + i) as usize));
}

/// Finding free blocks does not reserve them; filling the block map does:
/// the blocks that a request receives stay free in the image (the search
/// only reads it, so the same request receives them again), while after
/// they are linked into a chain none of them is free, and a later request
/// receives none of them.
pub proof fn lemma_finding_does_not_reserve(p: TianMuParams, img: Seq<u8>, num: int)
    requires
        params_ok(p),
        img.len() >= p.block_map_addr + 8 * p.block_num,
        num >= 1,
        spec_find_free(p, img, num) is Ok,
    ensures
        forall|k: int|
            0 <= k < spec_find_free(p, img, num)->Ok_0.len() ==> is_free(
                p,
                img,
                #[trigger] spec_find_free(p, img, num)->Ok_0[k] as int,
            ),
        forall|k: int|
            0 <= k < spec_find_free(p, img, num)->Ok_0.len() ==> !is_free(
                p,
                spec_fill(p, img, spec_find_free(p, img, num)->Ok_0),
                #[trigger] spec_find_free(p, img, num)->Ok_0[k] as int,
            ),
        spec_find_free(p, spec_fill(p, img, spec_find_free(p, img, num)->Ok_0), num) matches Ok(w)
            ==> forall|j: int, k: int|
            0 <= j < w.len() && 0 <= k < spec_find_free(p, img, num)->Ok_0.len() ==> #[trigger] w[j]
                != #[trigger] spec_find_free(p, img, num)->Ok_0[k],
{
    let v = spec_find_free(p, img, num)->Ok_0;
    lemma_find_free_takes_first_free(p, img, num);
    assert(blocks_in_range(p, v));
    assert(distinct(v)) by {
        assert forall|i: int, j: int| 0 <= i < j < v.len() implies v[i] != v[j] by {
            assert(v[i] < v[j]);
        }
    }
    lemma_fill_links(p, img, v);
    let filled = spec_fill(p, img, v);
    assert forall|k: int| 0 <= k < v.len() implies !is_free(p, filled, #[trigger] v[k] as int) by {
        assert(u64_at(filled, p.block_map_addr + 8 * v[k]) == next_link(v, k));
        if k + 1 < v.len() {
            assert(v[k] < v[k + 1]);
        }
    }
    lemma_find_free_takes_first_free(p, filled, num);
    if spec_find_free(p, filled, num) is Ok {
        let w = spec_find_free(p, filled, num)->Ok_0;
        assert forall|j: int, k: int| 0 <= j < w.len() && 0 <= k < v.len() implies #[trigger] w[j]
            != #[trigger] v[k] by {
            assert(is_free(p, filled, w[j] as int));
            assert(!is_free(p, filled, v[k] as int));
        }
    }
}

/// Laying out the block map twice leaves the image as laying it out once:
/// when the first layout succeeds, so does the second, and it changes
/// nothing.
pub proof fn lemma_init_twice_is_init_once(p: TianMuParams, img: Seq<u8>)
    requires
        spec_init(p, img) is Ok,
    ensures
        spec_init(p, spec_init(p, img)->Ok_0) == spec_init(p, img),
{
    let z1 = zeros((p.block_num * p.block_size) as nat);
    let m = p.block_map_addr as int;
    let z2 = zeros((8 * map_slots(p)) as nat);
    let o = ones((8 * reserved_blocks(p)) as nat);
    let once = write_at(write_at(write_at(img, 0, z1), m, z2), m, o);
    let c1 = write_at(once, 0, z1);
    let c2 = write_at(c1, m, z2);
    let twice = write_at(c2, m, o);
    assert(spec_init(p, img) == Ok::<Seq<u8>, MakeError>(once));
    assert(c1.len() == once.len());
    assert(c2.len() == once.len());
    assert(twice.len() == once.len());
    assert(twice =~= once);
}

/// The first request for blocks after the map is laid out receives the
/// blocks right after the reserved ones, in order.
pub proof fn lemma_first_blocks_after_init(p: TianMuParams, img: Seq<u8>, num: int)
    requires
        params_ok(p),
        spec_init(p, img) is Ok,
        num >= 1,
        reserved_blocks(p) + num <= p.block_num,
    ensures
        spec_find_free(p, spec_init(p, img)->Ok_0, num) == Ok::<Seq<usize>, MakeError>(
            Seq::new(num as nat, |i: int| (reserved_blocks(p) + i) as usize),
        ),
{
    let img2 = spec_init(p, img)->Ok_0;
    lemma_init_marks_reserved(p, img);
    lemma_end_and_zero_bytes();
    assert forall|b: int| 0 <= b < reserved_blocks(p) implies !#[trigger] is_free(p, img2, b) by {
        assert(u64_at(img2, p.block_map_addr + 8 * b) == END);
    }
    assert(reserved_blocks(p) >= 0) by {
        assert(p.root_offset / p.block_size >= 0);
    }
    lemma_first_free_from(p, img2, reserved_blocks(p), num);
}

/// The root directory's block starts at or after the end of the block map.
pub(crate) proof fn lemma_root_past_map(p: TianMuParams)
    requires
        params_ok(p),
    ensures
        p.block_map_addr + 8 * p.block_num <= root_block(p) * p.block_size,
        root_block(p) * p.block_size == p.root_offset,
{
    let bs = p.block_size as int;
    let bn = p.block_num as int;
    let q = (bn * 8 + 1024 + bs - 1) / bs;
    assert(q * bs >= bn * 8 + 1024) by (nonlinear_arith)
        requires
            bs > 0,
            q == (bn * 8 + 1024 + bs - 1) / bs,
    {
        assert(bn * 8 + 1024 + bs - 1 < q * bs + bs);
    }
    assert(root_offset_for(bs, bn) == q * bs);
    assert((q * bs) / bs == q) by (nonlinear_arith)
        requires
            bs > 0,
    ;
}

/// The blocks of a free-block request in an image whose reserved blocks
/// are marked used lie past the block map.
pub(crate) proof fn lemma_taken_blocks_past_map(p: TianMuParams, img: Seq<u8>, blocks: Seq<usize>)
    requires
        params_ok(p),
        forall|b: int| 0 <= b < reserved_blocks(p) ==> !#[trigger] is_free(p, img, b),
        forall|k: int|
            0 <= k < blocks.len() ==> is_free(p, img, #[trigger] blocks[k] as int) && blocks[k] < p.block_num,
    ensures
        forall|k: int|
            0 <= k < blocks.len() ==> p.block_map_addr + 8 * p.block_num <= #[trigger] blocks[k] * p.block_size,
{
    assert forall|k: int| 0 <= k < blocks.len() implies p.block_map_addr + 8 * p.block_num
        <= #[trigger] blocks[k] * p.block_size by {
        let b = blocks[k];
        if (b as int) < reserved_blocks(p) {
            assert(!is_free(p, img, b as int));
            assert(false);
        }
        lemma_root_past_map(p);
        let rb = root_block(p) as int;
        assert(rb * p.block_size <= b * p.block_size) by (nonlinear_arith)
            requires
                rb <= b,
                p.block_size > 0,
        ;
    }
}

} // verus!
