//! Laws of paths: what follows the root in a path, and which directory a
//! relative path leads to.
use vstd::prelude::*;
use vstd::utf8::encode_utf8;
use crate::path::{SLASH, after_first, dir_segments, segments_from, first_occurrence_from, occurs_at};
use crate::tianmu::{TianMuParams, TianMu, spec_chain, root_block, walk_dirs, walk_step, spec_find_dir_addr,
    spec_get_dir_item, spec_add_file_bytes, spec_add_directory_bytes, scan_free, chain_rest,
    search_slots, search_blocks, empty_slot, empty_slot_in_blocks, walk_to_end, spec_find_free};
use crate::entry::DirEntryView;
use vstd::utf8::is_continuation_byte;
use crate::require::{MakeError, MakeSystem};
use crate::laws::names::{lemma_no_more_segments, lemma_encode_concat};

verus! {

/// No byte of `s` is a `/`.
pub open spec fn slash_free(s: Seq<u8>) -> bool {
    forall|i: int| 0 <= i < s.len() ==> #[trigger] s[i] != SLASH
}

/// The relative path made of the directory names `names`, each followed
/// by a `/`, and then the last part `last`.
pub open spec fn parts_path(names: Seq<Seq<u8>>, last: Seq<u8>) -> Seq<u8>
    decreases names.len(),
{
    if names.len() == 0 {
        last
    } else {
        names[0] + seq![SLASH] + parts_path(names.drop_first(), last)
    }
}

/// Every name holds no `/`, and a name longer than fifteen bytes can be
/// cut after its fifteenth byte without splitting a character.
pub open spec fn lookup_names(names: Seq<Seq<u8>>) -> bool {
    forall|i: int|
        0 <= i < names.len() ==> slash_free(#[trigger] names[i]) && (names[i].len() > 15
            ==> !is_continuation_byte(names[i][15]))
}

/// The name under which a directory part is looked up: a part longer than
/// fifteen bytes by its first fifteen (the length of an item's name).
pub open spec fn lookup_key(name: Seq<u8>) -> Seq<u8> {
    if name.len() > 15 {
        name.subrange(0, 15)
    } else {
        name
    }
}

/// Looking the names `names` up one after another, from the directory
/// that starts at block `d`: an empty name is passed over; any other must
/// be (under its key) an item of the directory reached so far, and its
/// first block is the next directory. The result is the first block of
/// the last directory.
pub open spec fn look_up_names(p: TianMuParams, img: Seq<u8>, d: usize, names: Seq<Seq<u8>>) -> Result<
    usize,
    MakeError,
>
    decreases names.len(),
{
    if names.len() == 0 {
        Ok(d)
    } else if names[0].len() == 0 {
        look_up_names(p, img, d, names.drop_first())
    } else {
        match spec_get_dir_item(p, img, d, lookup_key(names[0])) {
            Err(e) => Err(e),
            Ok(None) => Err(MakeError::DirNotFound),
            Ok(Some(it)) => if it.start_block > usize::MAX {
                Err(MakeError::Overflow)
            } else {
                look_up_names(p, img, it.start_block as usize, names.drop_first())
            },
        }
    }
}

/// What follows the root: in a path that starts with the root text,
/// whatever comes after it (with or without a `/`) is what follows the
/// root.
pub proof fn lemma_after_root_prefix(root: Seq<u8>, rest: Seq<u8>)
    ensures
        after_first(root + rest, root) == Some(rest),
{
    let path = root + rest;
    assert(path.subrange(0, root.len() as int) =~= root);
    assert(occurs_at(path, root, 0));
    assert(first_occurrence_from(path, root, 0) == Some(0int));
    assert(path.subrange(root.len() as int, path.len() as int) =~= rest);
}

/// The search for `r` from index `i` finds its first occurrence at or
/// after `i`, or none when there is none.
proof fn lemma_first_occurrence(s: Seq<u8>, r: Seq<u8>, i: int)
    requires
        0 <= i,
    ensures
        first_occurrence_from(s, r, i) is None ==> forall|j: int| i <= j ==> !#[trigger] occurs_at(s, r, j),
        first_occurrence_from(s, r, i) matches Some(k) ==> i <= k && occurs_at(s, r, k) && forall|j: int|
            i <= j < k ==> !#[trigger] occurs_at(s, r, j),
    decreases s.len() + 1 - i,
{
    if i + r.len() <= s.len() && !occurs_at(s, r, i) {
        lemma_first_occurrence(s, r, i + 1);
    }
}

/// What follows the root in general: when the root text occurs in the
/// path, what follows the root is everything after its first occurrence;
/// when it does not occur, there is nothing.
pub proof fn lemma_after_first_occurrence(s: Seq<u8>, r: Seq<u8>)
    ensures
        after_first(s, r) is None <==> forall|j: int| !#[trigger] occurs_at(s, r, j),
        after_first(s, r) matches Some(t) ==> exists|i: int|
            #[trigger] occurs_at(s, r, i) && t == s.subrange(i + r.len(), s.len() as int) && forall|j: int|
                j < i ==> !#[trigger] occurs_at(s, r, j),
{
    lemma_first_occurrence(s, r, 0);
    match first_occurrence_from(s, r, 0) {
        Some(k) => {
            assert(occurs_at(s, r, k));
        },
        None => {},
    }
}

/// Adding a file or a directory whose path starts with the root text never
/// fails because the path is not under the root.
pub proof fn lemma_path_under_root_is_accepted(
    t: TianMu,
    root: Seq<char>,
    rest: Seq<char>,
    content: Seq<u8>,
    img: Seq<u8>,
)
    ensures
        t.spec_add_file(root, root + rest, content, img) != Err::<Seq<u8>, MakeError>(
            MakeError::RootNotInPath,
        ),
        t.spec_add_directory(root, root + rest, img) != Err::<Seq<u8>, MakeError>(
            MakeError::RootNotInPath,
        ),
{
    lemma_encode_concat(root, rest);
    lemma_after_root_prefix(encode_utf8(root), encode_utf8(rest));
    lemma_no_root_error_in_steps();
}

/// The steps after the root is split off never report the path as outside
/// the root: the block-map scan, chain reads, slot searches, the walk down
/// the directories and the walk to a chain's end.
proof fn lemma_no_root_error_in_steps()
    ensures
        forall|p: TianMuParams, img: Seq<u8>, num: int, i: int, pos: int, buf: Seq<u8>, f: Seq<usize>|
            #[trigger] scan_free(p, img, num, i, pos, buf, f) != Err::<Seq<usize>, MakeError>(
                MakeError::RootNotInPath,
            ),
        forall|img: Seq<u8>, addr: int, fuel: nat|
            #[trigger] chain_rest(img, addr, fuel) != Err::<Seq<usize>, MakeError>(MakeError::RootNotInPath),
        forall|img: Seq<u8>, pos: int, j: int, num: int, buf: Seq<u8>, name: Seq<u8>|
            #[trigger] search_slots(img, pos, j, num, buf, name) != Err::<
                Option<DirEntryView>,
                MakeError,
            >(MakeError::RootNotInPath),
        forall|p: TianMuParams, img: Seq<u8>, blocks: Seq<usize>, name: Seq<u8>|
            #[trigger] search_blocks(p, img, blocks, name) != Err::<Option<DirEntryView>, MakeError>(
                MakeError::RootNotInPath,
            ),
        forall|p: TianMuParams, img: Seq<u8>, d: usize, segs: Seq<Seq<u8>>|
            #[trigger] walk_dirs(p, img, d, segs) != Err::<usize, MakeError>(MakeError::RootNotInPath),
        forall|img: Seq<u8>, pos: int, j: int, num: int, buf: Seq<u8>|
            #[trigger] empty_slot(img, pos, j, num, buf) != Err::<Option<int>, MakeError>(
                MakeError::RootNotInPath,
            ),
        forall|p: TianMuParams, img: Seq<u8>, blocks: Seq<usize>|
            #[trigger] empty_slot_in_blocks(p, img, blocks) != Err::<Option<int>, MakeError>(
                MakeError::RootNotInPath,
            ),
        forall|p: TianMuParams, img: Seq<u8>, addr: int, flag: u64, buf: Seq<u8>, fuel: nat|
            #[trigger] walk_to_end(p, img, addr, flag, buf, fuel) != Err::<int, MakeError>(
                MakeError::RootNotInPath,
            ),
{
    assert forall|p: TianMuParams, img: Seq<u8>, num: int, i: int, pos: int, buf: Seq<u8>, f: Seq<usize>|
        #[trigger] scan_free(p, img, num, i, pos, buf, f) != Err::<Seq<usize>, MakeError>(
            MakeError::RootNotInPath,
        ) by {
        lemma_scan_no_root_error(p, img, num, i, pos, buf, f);
    }
    assert forall|img: Seq<u8>, addr: int, fuel: nat|
        #[trigger] chain_rest(img, addr, fuel) != Err::<Seq<usize>, MakeError>(MakeError::RootNotInPath) by {
        lemma_chain_no_root_error(img, addr, fuel);
    }
    assert forall|img: Seq<u8>, pos: int, j: int, num: int, buf: Seq<u8>, name: Seq<u8>|
        #[trigger] search_slots(img, pos, j, num, buf, name) != Err::<Option<DirEntryView>, MakeError>(
            MakeError::RootNotInPath,
        ) by {
        lemma_slots_no_root_error(img, pos, j, num, buf, name);
    }
    assert forall|p: TianMuParams, img: Seq<u8>, blocks: Seq<usize>, name: Seq<u8>|
        #[trigger] search_blocks(p, img, blocks, name) != Err::<Option<DirEntryView>, MakeError>(
            MakeError::RootNotInPath,
        ) by {
        lemma_blocks_no_root_error(p, img, blocks, name);
    }
    assert forall|p: TianMuParams, img: Seq<u8>, d: usize, segs: Seq<Seq<u8>>|
        #[trigger] walk_dirs(p, img, d, segs) != Err::<usize, MakeError>(MakeError::RootNotInPath) by {
        lemma_walk_no_root_error(p, img, d, segs);
    }
    assert forall|img: Seq<u8>, pos: int, j: int, num: int, buf: Seq<u8>|
        #[trigger] empty_slot(img, pos, j, num, buf) != Err::<Option<int>, MakeError>(
            MakeError::RootNotInPath,
        ) by {
        lemma_empty_slot_no_root_error(img, pos, j, num, buf);
    }
    assert forall|p: TianMuParams, img: Seq<u8>, blocks: Seq<usize>|
        #[trigger] empty_slot_in_blocks(p, img, blocks) != Err::<Option<int>, MakeError>(
            MakeError::RootNotInPath,
        ) by {
        lemma_empty_blocks_no_root_error(p, img, blocks);
    }
    assert forall|p: TianMuParams, img: Seq<u8>, addr: int, flag: u64, buf: Seq<u8>, fuel: nat|
        #[trigger] walk_to_end(p, img, addr, flag, buf, fuel) != Err::<int, MakeError>(
            MakeError::RootNotInPath,
        ) by {
        lemma_walk_end_no_root_error(p, img, addr, flag, buf, fuel);
    }
}

proof fn lemma_scan_no_root_error(
    p: TianMuParams,
    img: Seq<u8>,
    num: int,
    i: int,
    pos: int,
    buf: Seq<u8>,
    f: Seq<usize>,
)
    ensures
        scan_free(p, img, num, i, pos, buf, f) != Err::<Seq<usize>, MakeError>(MakeError::RootNotInPath),
    decreases p.block_num - i,
{
    if i < p.block_num && pos < img.len() {
        let b2 = crate::image::read_over(img, pos, buf);
        let f2 = if vstd::bytes::spec_u64_from_le_bytes(b2) == 0 {
            f.push(i as usize)
        } else {
            f
        };
        lemma_scan_no_root_error(p, img, num, i + 1, pos + crate::image::read_count(img, pos, 8), b2, f2);
    }
}

proof fn lemma_chain_no_root_error(img: Seq<u8>, addr: int, fuel: nat)
    ensures
        chain_rest(img, addr, fuel) != Err::<Seq<usize>, MakeError>(MakeError::RootNotInPath),
    decreases fuel,
{
    if addr != 0 && addr < img.len() && fuel > 0 {
        let t = vstd::bytes::spec_u64_from_le_bytes(crate::image::read_over(img, addr, crate::image::zeros(8)));
        lemma_chain_no_root_error(img, t * 8, (fuel - 1) as nat);
    }
}

proof fn lemma_slots_no_root_error(img: Seq<u8>, pos: int, j: int, num: int, buf: Seq<u8>, name: Seq<u8>)
    ensures
        search_slots(img, pos, j, num, buf, name) != Err::<Option<DirEntryView>, MakeError>(
            MakeError::RootNotInPath,
        ),
    decreases num - j,
{
    if j < num && pos < img.len() {
        let b2 = crate::image::read_over(img, pos, buf);
        lemma_slots_no_root_error(img, pos + crate::image::read_count(img, pos, 32), j + 1, num, b2, name);
    }
}

proof fn lemma_blocks_no_root_error(p: TianMuParams, img: Seq<u8>, blocks: Seq<usize>, name: Seq<u8>)
    ensures
        search_blocks(p, img, blocks, name) != Err::<Option<DirEntryView>, MakeError>(
            MakeError::RootNotInPath,
        ),
    decreases blocks.len(),
{
    if blocks.len() > 0 {
        lemma_slots_no_root_error(img, blocks[0] * p.block_size, 0, crate::tianmu::slots_per_block(p),
            crate::image::zeros(32), name);
        lemma_blocks_no_root_error(p, img, blocks.drop_first(), name);
    }
}

proof fn lemma_walk_no_root_error(p: TianMuParams, img: Seq<u8>, d: usize, segs: Seq<Seq<u8>>)
    ensures
        walk_dirs(p, img, d, segs) != Err::<usize, MakeError>(MakeError::RootNotInPath),
    decreases segs.len(),
{
    if segs.len() > 0 {
        let seg = segs[0];
        let key = if seg.len() > 15 {
            seg.subrange(0, 15)
        } else {
            seg
        };
        lemma_chain_no_root_error(img, p.block_map_addr + 8 * d, img.len());
        if spec_chain(p, img, d) is Ok {
            lemma_blocks_no_root_error(p, img, spec_chain(p, img, d)->Ok_0, key);
        }
        if walk_step(p, img, d, seg) is Ok {
            lemma_walk_no_root_error(p, img, walk_step(p, img, d, seg)->Ok_0, segs.drop_first());
        }
    }
}

proof fn lemma_empty_slot_no_root_error(img: Seq<u8>, pos: int, j: int, num: int, buf: Seq<u8>)
    ensures
        empty_slot(img, pos, j, num, buf) != Err::<Option<int>, MakeError>(MakeError::RootNotInPath),
    decreases num - j,
{
    if j < num && pos < img.len() {
        let b2 = crate::image::read_over(img, pos, buf);
        lemma_empty_slot_no_root_error(img, pos + crate::image::read_count(img, pos, 32), j + 1, num, b2);
    }
}

proof fn lemma_empty_blocks_no_root_error(p: TianMuParams, img: Seq<u8>, blocks: Seq<usize>)
    ensures
        empty_slot_in_blocks(p, img, blocks) != Err::<Option<int>, MakeError>(MakeError::RootNotInPath),
    decreases blocks.len(),
{
    if blocks.len() > 0 {
        lemma_empty_slot_no_root_error(img, blocks[0] * p.block_size, 0, crate::tianmu::slots_per_block(p),
            crate::image::zeros(32));
        lemma_empty_blocks_no_root_error(p, img, blocks.drop_first());
    }
}

proof fn lemma_walk_end_no_root_error(
    p: TianMuParams,
    img: Seq<u8>,
    addr: int,
    flag: u64,
    buf: Seq<u8>,
    fuel: nat,
)
    ensures
        walk_to_end(p, img, addr, flag, buf, fuel) != Err::<int, MakeError>(MakeError::RootNotInPath),
    decreases fuel,
{
    if fuel > 0 && flag != crate::tianmu::END && flag * 8 + p.block_map_addr <= usize::MAX {
        let a2 = flag * 8 + p.block_map_addr;
        let b2 = crate::image::read_over(img, a2, buf);
        lemma_walk_end_no_root_error(p, img, a2, vstd::bytes::spec_u64_from_le_bytes(b2), b2, (fuel - 1) as nat);
    }
}

/// The parts of `s` scanned from `k`, where what remains is the names
/// `names` each followed by `/` and then a last part without `/`, are the
/// names.
proof fn lemma_segments_of_parts(s: Seq<u8>, k: int, names: Seq<Seq<u8>>, last: Seq<u8>)
    requires
        0 <= k <= s.len(),
        s.subrange(k, s.len() as int) == parts_path(names, last),
        lookup_names(names),
        slash_free(last),
    ensures
        segments_from(s, k, k) == names,
    decreases names.len(),
{
    let tail = s.subrange(k, s.len() as int);
    if names.len() == 0 {
        assert forall|x: int| k <= x < s.len() implies #[trigger] s[x] != SLASH by {
            assert(s[x] == tail[x - k]);
        }
        lemma_no_more_segments(s, k, k);
    } else {
        let n0 = names[0];
        let rest = names.drop_first();
        let k2 = k + n0.len();
        assert(slash_free(n0));
        assert(tail =~= n0 + seq![SLASH] + parts_path(rest, last));
        assert forall|x: int| k <= x < k2 implies #[trigger] s[x] != SLASH by {
            assert(s[x] == tail[x - k]);
            assert(tail[x - k] == n0[x - k]);
        }
        lemma_skip(s, k, k, k2);
        assert(s[k2] == tail[k2 - k]);
        assert(s.subrange(k, k2) =~= n0);
        assert(s.subrange(k2 + 1, s.len() as int) =~= tail.subrange(n0.len() + 1int, tail.len() as int));
        assert(tail.subrange(n0.len() + 1int, tail.len() as int) =~= parts_path(rest, last));
        assert(lookup_names(rest)) by {
            assert forall|i: int| 0 <= i < rest.len() implies slash_free(#[trigger] rest[i]) && (rest[i].len()
                > 15 ==> !is_continuation_byte(rest[i][15])) by {
                assert(rest[i] == names[i + 1]);
            }
        }
        lemma_segments_of_parts(s, k2 + 1, rest, last);
        assert(names =~= seq![n0] + rest);
    }
}

/// Bytes without `/` end no part.
proof fn lemma_skip(s: Seq<u8>, st: int, i: int, j: int)
    requires
        0 <= i <= j <= s.len(),
        forall|x: int| i <= x < j ==> #[trigger] s[x] != SLASH,
    ensures
        segments_from(s, st, i) == segments_from(s, st, j),
    decreases j - i,
{
    if i < j {
        lemma_skip(s, st, i + 1, j);
    }
}

/// Walking down the names looks each one up in turn.
proof fn lemma_walk_is_look_up(p: TianMuParams, img: Seq<u8>, d: usize, names: Seq<Seq<u8>>)
    requires
        lookup_names(names),
    ensures
        walk_dirs(p, img, d, names) == look_up_names(p, img, d, names),
    decreases names.len(),
{
    if names.len() > 0 {
        let rest = names.drop_first();
        assert(names[0].len() > 15 ==> !is_continuation_byte(names[0][15]));
        assert(lookup_names(rest)) by {
            assert forall|i: int| 0 <= i < rest.len() implies slash_free(#[trigger] rest[i]) && (rest[i].len()
                > 15 ==> !is_continuation_byte(rest[i][15])) by {
                assert(rest[i] == names[i + 1]);
            }
        }
        if names[0].len() == 0 {
            lemma_walk_is_look_up(p, img, d, rest);
        } else {
            match spec_get_dir_item(p, img, d, lookup_key(names[0])) {
                Ok(Some(it)) => {
                    if it.start_block <= usize::MAX {
                        lemma_walk_is_look_up(p, img, it.start_block as usize, rest);
                    }
                },
                _ => {},
            }
        }
    }
}

/// Which directory a relative path leads to: for directory names without
/// `/` (a long one cut at a character boundary), each followed by `/`, and
/// a last part without `/`, the directory found is the one reached by
/// looking the non-empty names up one after another from the root, and a
/// `/` in front of the path changes nothing.
pub proof fn lemma_find_dir_looks_up_each_name(
    p: TianMuParams,
    img: Seq<u8>,
    names: Seq<Seq<u8>>,
    last: Seq<u8>,
)
    requires
        lookup_names(names),
        slash_free(last),
    ensures
        spec_find_dir_addr(p, img, parts_path(names, last)) == (match look_up_names(
            p,
            img,
            root_block(p),
            names,
        ) {
            Err(e) => Err(e),
            Ok(d) => if d * p.block_size > usize::MAX {
                Err(MakeError::Overflow)
            } else {
                Ok((d * p.block_size) as usize)
            },
        }),
        spec_find_dir_addr(p, img, seq![SLASH] + parts_path(names, last)) == spec_find_dir_addr(
            p,
            img,
            parts_path(names, last),
        ),
{
    let s = parts_path(names, last);
    assert(s.subrange(0, s.len() as int) =~= s);
    lemma_segments_of_parts(s, 0, names, last);
    lemma_walk_is_look_up(p, img, root_block(p), names);
    lemma_leading_slash(p, img, s);
}

/// The parts of `x + s` scanned from past `x` are those of `s`.
proof fn lemma_segments_shift(x: Seq<u8>, s: Seq<u8>, st: int, i: int)
    requires
        0 <= st <= i,
    ensures
        segments_from(x + s, st + x.len(), i + x.len()) == segments_from(s, st, i),
    decreases s.len() - i,
{
    let xs = x + s;
    if 0 <= i < s.len() {
        assert(xs[i + x.len()] == s[i]);
        if s[i] == SLASH {
            lemma_segments_shift(x, s, i + 1, i + 1);
            assert(xs.subrange(st + x.len(), i + x.len()) =~= s.subrange(st, i));
            assert(i + 1 + x.len() == i + x.len() + 1);
        } else {
            lemma_segments_shift(x, s, st, i + 1);
        }
    }
}

/// A `/` in front of a relative path does not change the directory found.
pub proof fn lemma_leading_slash(p: TianMuParams, img: Seq<u8>, rel: Seq<u8>)
    ensures
        spec_find_dir_addr(p, img, seq![SLASH] + rel) == spec_find_dir_addr(p, img, rel),
{
    let s = seq![SLASH] + rel;
    assert(s[0] == SLASH);
    lemma_segments_shift(seq![SLASH], rel, 0, 0);
    assert(s.subrange(0, 0) =~= Seq::<u8>::empty());
    let segs = dir_segments(rel);
    let all = dir_segments(s);
    assert(all == seq![Seq::<u8>::empty()] + segs);
    assert(all[0] == Seq::<u8>::empty());
    assert(all.drop_first() =~= segs);
    assert(walk_step(p, img, root_block(p), all[0]) == Ok::<usize, MakeError>(root_block(p)));
}

} // verus!
