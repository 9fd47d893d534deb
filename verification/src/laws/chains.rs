//! Laws of walking block chains: a walk that gives up never ends.
use vstd::prelude::*;
use vstd::bytes::*;
use crate::image::{read_over, zeros};
use crate::tianmu::{TianMuParams, params_ok, END, chain_rest, walk_to_end, prepend};
use crate::require::MakeError;
use vstd::set_lib::{set_int_range, lemma_int_range, lemma_len_subset};
use crate::laws::bytes::lemma_full_read;

verus! {

/// One step of a directory's chain as the directory reader takes it: from
/// the map entry at byte `a` to the entry of the next block, at byte
/// `8 * t`; none when the chain ends there or the read fails.
pub open spec fn chain_step(img: Seq<u8>, a: int) -> Option<int> {
    if a == 0 || a >= img.len() {
        None
    } else {
        let t = spec_u64_from_le_bytes(read_over(img, a, zeros(8)));
        if t == 0 || t == END || t * 8 > usize::MAX {
            None
        } else {
            Some(t * 8)
        }
    }
}

/// Where a walk that moves by `step` stands after `n` steps from `x`, if
/// it goes on that long.
pub open spec fn iterate(step: spec_fn(int) -> Option<int>, x: int, n: nat) -> Option<int>
    decreases n,
{
    if n == 0 {
        Some(x)
    } else {
        match step(x) {
            Some(y) => iterate(step, y, (n - 1) as nat),
            None => None,
        }
    }
}

/// Where the directory reader stands after `n` steps from byte `a`, if
/// the chain goes on that long.
pub open spec fn addr_after(img: Seq<u8>, a: int, n: nat) -> Option<int> {
    iterate(|x: int| chain_step(img, x), a, n)
}

/// The reader gives up after `f` reads exactly when the chain goes on for
/// `f` steps and it stands at a readable entry.
pub(crate) proof fn lemma_gives_up_iff(img: Seq<u8>, a: int, f: nat)
    ensures
        (chain_rest(img, a, f) == Err::<Seq<usize>, MakeError>(MakeError::ChainLoops)) <==> (addr_after(
            img,
            a,
            f,
        ) matches Some(b) && b != 0 && b < img.len()),
    decreases f,
{
    if a != 0 && a < img.len() && f > 0 {
        let t = spec_u64_from_le_bytes(read_over(img, a, zeros(8)));
        if !(t == 0 || t == END || t * 8 > usize::MAX) {
            lemma_gives_up_iff(img, t * 8, (f - 1) as nat);
            let inner = chain_rest(img, t * 8, (f - 1) as nat);
            assert(chain_rest(img, a, f) == prepend(seq![t as usize], inner));
        }
    }
}

/// Taking `i` steps and then `k` more is taking `i + k` steps.
pub(crate) proof fn lemma_steps_compose(step: spec_fn(int) -> Option<int>, x: int, i: nat, k: nat)
    ensures
        iterate(step, x, i + k) == (match iterate(step, x, i) {
            Some(y) => iterate(step, y, k),
            None => None,
        }),
    decreases i,
{
    if i > 0 {
        if let Some(c) = step(x) {
            lemma_steps_compose(step, c, (i - 1) as nat, k);
            assert((i + k - 1) as nat == (i - 1) as nat + k);
        }
    }
}

/// A walk that goes on for `n` steps went on, and moved again, at every
/// earlier step.
pub(crate) proof fn lemma_steps_prefix(step: spec_fn(int) -> Option<int>, x: int, m: nat, n: nat)
    requires
        m < n,
        iterate(step, x, n) is Some,
    ensures
        iterate(step, x, m) matches Some(y) && step(y) is Some,
{
    lemma_steps_compose(step, x, m, (n - m) as nat);
    assert(m + (n - m) as nat == n);
}

/// From a byte offset, the reader stands only at byte offsets.
pub(crate) proof fn lemma_steps_nonneg(img: Seq<u8>, a: int, n: nat)
    requires
        0 <= a,
    ensures
        addr_after(img, a, n) matches Some(b) ==> 0 <= b,
    decreases n,
{
    if n > 0 {
        if let Some(c) = chain_step(img, a) {
            lemma_steps_nonneg(img, c, (n - 1) as nat);
        }
    }
}

/// More values than the range `lo..hi` holds cannot all differ.
pub(crate) proof fn lemma_pigeonhole(s: Seq<int>, lo: int, hi: int)
    requires
        lo <= hi,
        s.len() > hi - lo,
        forall|k: int| 0 <= k < s.len() ==> lo <= #[trigger] s[k] < hi,
    ensures
        exists|i: int, j: int| 0 <= i < j < s.len() && s[i] == s[j],
{
    if s.no_duplicates() {
        s.unique_seq_to_set();
        lemma_int_range(lo, hi);
        assert(s.to_set().subset_of(set_int_range(lo, hi))) by {
            assert forall|x: int| s.to_set().contains(x) implies set_int_range(lo, hi).contains(x) by {
                let k = choose|k: int| 0 <= k < s.len() && s[k] == x;
            }
        }
        lemma_len_subset(s.to_set(), set_int_range(lo, hi));
        assert(false);
    } else {
        let (i, j) = choose|i: int, j: int| 0 <= i < s.len() && 0 <= j < s.len() && i != j && s[i] == s[j];
        if i < j {
            assert(s[i] == s[j]);
        } else {
            assert(s[j] == s[i]);
        }
    }
}

/// A walk that is back at step `j` where it stood at step `i` goes on at
/// every step.
pub(crate) proof fn lemma_cycle_goes_on(step: spec_fn(int) -> Option<int>, x: int, i: nat, j: nat, n: nat)
    requires
        i < j,
        iterate(step, x, j + 1) is Some,
        iterate(step, x, i) == iterate(step, x, j),
    ensures
        iterate(step, x, n) matches Some(y) && step(y) is Some,
    decreases n,
{
    if n <= j {
        lemma_steps_prefix(step, x, n, j + 1);
    } else {
        let m = (n - (j - i)) as nat;
        lemma_cycle_goes_on(step, x, i, j, m);
        lemma_steps_prefix(step, x, i, j + 1);
        lemma_steps_prefix(step, x, j, j + 1);
        lemma_steps_compose(step, x, j, (n - j) as nat);
        lemma_steps_compose(step, x, i, (n - j) as nat);
        assert(j + (n - j) as nat == n);
        assert(i + (n - j) as nat == m);
    }
}

/// A walk that goes on for `len` steps while standing only in a range
/// of fewer than `len` places goes on at every step.
pub(crate) proof fn lemma_bounded_walk_goes_on(step: spec_fn(int) -> Option<int>, x: int, len: nat, lo: int, hi: int)
    requires
        lo <= hi,
        hi - lo < len,
        iterate(step, x, len) is Some,
        forall|k: nat| k < len ==> (#[trigger] iterate(step, x, k) matches Some(y) && lo <= y < hi),
    ensures
        forall|n: nat| #[trigger] iterate(step, x, n) matches Some(y) && step(y) is Some,
{
    let s = Seq::new(len, |k: int| iterate(step, x, k as nat)->Some_0);
    assert forall|k: int| 0 <= k < s.len() implies lo <= #[trigger] s[k] < hi by {
        assert(iterate(step, x, k as nat) matches Some(y) && lo <= y < hi);
    }
    lemma_pigeonhole(s, lo, hi);
    let (i, j) = choose|i: int, j: int| 0 <= i < j < s.len() && s[i] == s[j];
    lemma_steps_prefix(step, x, i as nat, len);
    lemma_steps_prefix(step, x, j as nat, len);
    if j + 1 < len {
        lemma_steps_prefix(step, x, (j + 1) as nat, len);
    }
    assert(iterate(step, x, (j + 1) as nat) is Some);
    assert forall|n: nat| #[trigger] iterate(step, x, n) matches Some(y) && step(y) is Some by {
        lemma_cycle_goes_on(step, x, i as nat, j as nat, n);
    }
}

/// The directory reader gives up only on a chain that never ends: when it
/// gives up after as many reads as the image has bytes, the chain goes on
/// at every step, and no number of reads would have ended it.
pub proof fn lemma_chain_gives_up_only_on_loops(img: Seq<u8>, a: int)
    requires
        0 <= a,
        chain_rest(img, a, img.len()) == Err::<Seq<usize>, MakeError>(MakeError::ChainLoops),
    ensures
        forall|n: nat| #[trigger] addr_after(img, a, n) matches Some(b) && chain_step(img, b) is Some,
        forall|f: nat| #[trigger] chain_rest(img, a, f) == Err::<Seq<usize>, MakeError>(MakeError::ChainLoops),
{
    let len = img.len();
    let step = |x: int| chain_step(img, x);
    lemma_gives_up_iff(img, a, len);
    assert forall|k: nat| k < len implies (#[trigger] iterate(step, a, k) matches Some(y) && 1 <= y < len) by {
        lemma_steps_prefix(step, a, k, len);
        lemma_steps_nonneg(img, a, k);
    }
    lemma_bounded_walk_goes_on(step, a, len, 1, len as int);
    assert forall|f: nat| #[trigger] chain_rest(img, a, f) == Err::<Seq<usize>, MakeError>(
        MakeError::ChainLoops,
    ) by {
        assert(iterate(step, a, f) matches Some(y) && step(y) is Some);
        lemma_gives_up_iff(img, a, f);
    }
}

/// One step of the walk to the end of a chain done when a directory
/// grows: from a map value `g` to the value in the entry of block `g`;
/// none at `END` or when that entry does not lie inside the image.
pub open spec fn walk_next(p: TianMuParams, img: Seq<u8>, g: int) -> Option<int> {
    if g < 0 || g > u64::MAX || g == END || g * 8 + p.block_map_addr > usize::MAX || g * 8
        + p.block_map_addr >= img.len() {
        None
    } else {
        let a2 = g * 8 + p.block_map_addr;
        Some(spec_u64_from_le_bytes(img.subrange(a2, a2 + 8)) as int)
    }
}

/// The map value the walk holds after `n` steps from `g`, if it goes on
/// that long.
pub open spec fn flag_after(p: TianMuParams, img: Seq<u8>, g: int, n: nat) -> Option<int> {
    iterate(|x: int| walk_next(p, img, x), g, n)
}

/// In an image whose length is a multiple of eight, the walk gives up
/// after `f` reads exactly when it goes on for `f` steps and then stands
/// at a value whose entry lies inside the image.
pub(crate) proof fn lemma_walk_gives_up_iff(p: TianMuParams, img: Seq<u8>, addr: int, flag: u64, buf: Seq<u8>, f: nat)
    requires
        params_ok(p),
        img.len() % 8 == 0,
        buf.len() == 8,
    ensures
        (walk_to_end(p, img, addr, flag, buf, f) == Err::<int, MakeError>(MakeError::ChainLoops))
            <==> (flag_after(p, img, flag as int, f) matches Some(g) && walk_next(p, img, g) is Some),
    decreases f,
{
    let a2 = flag * 8 + p.block_map_addr;
    if flag != END && a2 <= usize::MAX && a2 < img.len() && f > 0 {
        let len = img.len() as int;
        let q = len / 8;
        assert(a2 + 8 <= len) by (nonlinear_arith)
            requires
                a2 == flag * 8 + 1024,
                a2 < len,
                len == 8 * q,
        ;
        lemma_full_read(img, a2, buf);
        let b2 = read_over(img, a2, buf);
        lemma_walk_gives_up_iff(p, img, a2, spec_u64_from_le_bytes(b2), b2, (f - 1) as nat);
    }
}

/// The walk done when a directory grows gives up only on a chain that
/// never reaches `END`: in an image whose length is a multiple of eight,
/// when the walk gives up after as many reads as the image has bytes, it
/// goes on at every step, and no number of reads would have ended it.
pub proof fn lemma_walk_gives_up_only_on_loops(p: TianMuParams, img: Seq<u8>, addr: int, flag: u64, buf: Seq<u8>)
    requires
        params_ok(p),
        img.len() % 8 == 0,
        buf.len() == 8,
        walk_to_end(p, img, addr, flag, buf, img.len()) == Err::<int, MakeError>(MakeError::ChainLoops),
    ensures
        forall|n: nat| #[trigger] flag_after(p, img, flag as int, n) matches Some(g) && walk_next(p, img, g) is Some,
        forall|f: nat| #[trigger] walk_to_end(p, img, addr, flag, buf, f) == Err::<int, MakeError>(
            MakeError::ChainLoops,
        ),
{
    let len = img.len();
    let step = |x: int| walk_next(p, img, x);
    lemma_walk_gives_up_iff(p, img, addr, flag, buf, len);
    lemma_steps_compose(step, flag as int, len, 1);
    let g = iterate(step, flag as int, len)->Some_0;
    assert(step(g) is Some);
    assert(iterate(step, step(g)->Some_0, 0) is Some);
    assert(iterate(step, g, 1) is Some);
    assert(iterate(step, flag as int, len + 1) is Some);
    assert forall|k: nat| k < len + 1 implies (#[trigger] iterate(step, flag as int, k) matches Some(y) && 0 <= y
        < len) by {
        lemma_steps_prefix(step, flag as int, k, len + 1);
    }
    lemma_bounded_walk_goes_on(step, flag as int, len + 1, 0, len as int);
    assert forall|f: nat| #[trigger] walk_to_end(p, img, addr, flag, buf, f) == Err::<int, MakeError>(
        MakeError::ChainLoops,
    ) by {
        assert(iterate(step, flag as int, f) matches Some(y) && step(y) is Some);
        lemma_walk_gives_up_iff(p, img, addr, flag, buf, f);
    }
}

} // verus!
