//! The law of making an image from a tree of files and directories: every
//! file is found by its path, and its contents read back.
use vstd::prelude::*;
use vstd::utf8::encode_utf8;
use crate::path::{SLASH, after_first, last_name, dir_segments, segments_from,
    first_occurrence_from, occurs_at};
use crate::laws::names::{plain_part, plain_chars, lemma_name_start, lemma_no_more_segments,
    lemma_encode_concat, lemma_path_bytes, lemma_plain_field_matches_only};
use crate::image::{u64_at, zeros, read_over};
use crate::tianmu::{TianMuParams, params_ok, END, root_block, slots_per_block, reserved_blocks,
    blocks_for, spec_get_dir_item, search_slots, walk_dirs, walk_step, spec_find_dir_addr};
use crate::entry::{DirEntryView, name_field, encode_entry, lemma_decode_encode, ATTR_DIRECTORY};
use crate::require::MakeError;
use crate::laws::block_map::is_free;
use crate::laws::bytes::lemma_full_read;
use crate::laws::directories::{lemma_dir_block_past_map, lemma_single_block_chain, lemma_add_slot};
use crate::image::write_at;
use crate::tianmu::{spec_add_dir_item, spec_add_file_bytes, spec_add_directory_bytes};
use crate::entry::ATTR_FILE;
use crate::laws::making::{slot_of, stored_from, lemma_stored_from_frame, lemma_stored_from_blocks};
use crate::tianmu::{spec_store, spec_find_free, next_link, chunk};
use crate::laws::block_map::{in_entry_of, lemma_first_free_from, lemma_root_past_map,
    lemma_fill_links, distinct};
use crate::tianmu::{spec_fill, blocks_in_range};
use crate::laws::contents::{lemma_stored_contents_read_back, lemma_store_keeps_root};
use crate::laws::bytes::same_bytes;

verus! {

/// The path parts `cs`, each after a `/`.
pub open spec fn join_parts(cs: Seq<Seq<u8>>) -> Seq<u8>
    decreases cs.len(),
{
    if cs.len() == 0 {
        Seq::empty()
    } else {
        seq![SLASH] + cs[0] + join_parts(cs.drop_first())
    }
}

/// The path parts `cs`, as text, each after a `/`.
pub open spec fn join_chars(cs: Seq<Seq<char>>) -> Seq<char>
    decreases cs.len(),
{
    if cs.len() == 0 {
        Seq::empty()
    } else {
        seq!['/'] + cs[0] + join_chars(cs.drop_first())
    }
}

/// The UTF-8 bytes of each part.
pub open spec fn parts_bytes(cs: Seq<Seq<char>>) -> Seq<Seq<u8>> {
    cs.map_values(|c: Seq<char>| encode_utf8(c))
}

/// Every part is a plain name of one to fifteen characters.
pub open spec fn plain_parts(cs: Seq<Seq<char>>) -> bool {
    forall|i: int| 0 <= i < cs.len() ==> plain_chars(#[trigger] cs[i]) && 1 <= cs[i].len() <= 15
}

/// Adding a part at the end of a path adds `/` and the part.
pub proof fn lemma_join_push(cs: Seq<Seq<u8>>, n: Seq<u8>)
    ensures
        join_parts(cs.push(n)) == join_parts(cs) + seq![SLASH] + n,
    decreases cs.len(),
{
    if cs.len() == 0 {
        assert(cs.push(n).drop_first() =~= Seq::<Seq<u8>>::empty());
        assert(cs.push(n)[0] == n);
        assert(join_parts(cs.push(n).drop_first()) =~= Seq::<u8>::empty());
        assert(join_parts(cs) =~= Seq::<u8>::empty());
        assert(join_parts(cs.push(n)) =~= join_parts(cs) + seq![SLASH] + n);
    } else {
        assert(cs.push(n).drop_first() =~= cs.drop_first().push(n));
        lemma_join_push(cs.drop_first(), n);
        assert(join_parts(cs.push(n)) =~= join_parts(cs) + seq![SLASH] + n);
    }
}

/// Adding a part at the end of a path adds `/` and the part, as text.
pub proof fn lemma_join_chars_push(cs: Seq<Seq<char>>, n: Seq<char>)
    ensures
        join_chars(cs.push(n)) == join_chars(cs) + seq!['/'] + n,
    decreases cs.len(),
{
    if cs.len() == 0 {
        assert(cs.push(n).drop_first() =~= Seq::<Seq<char>>::empty());
        assert(cs.push(n)[0] == n);
        assert(join_chars(cs.push(n).drop_first()) =~= Seq::<char>::empty());
        assert(join_chars(cs) =~= Seq::<char>::empty());
        assert(join_chars(cs.push(n)) =~= join_chars(cs) + seq!['/'] + n);
    } else {
        assert(cs.push(n).drop_first() =~= cs.drop_first().push(n));
        lemma_join_chars_push(cs.drop_first(), n);
        assert(join_chars(cs.push(n)) =~= join_chars(cs) + seq!['/'] + n);
    }
}

/// The UTF-8 bytes of joined parts are the joined bytes of the parts.
pub proof fn lemma_join_bytes(cs: Seq<Seq<char>>)
    ensures
        encode_utf8(join_chars(cs)) == join_parts(parts_bytes(cs)),
    decreases cs.len(),
{
    if cs.len() == 0 {
        assert(encode_utf8(join_chars(cs)) =~= Seq::<u8>::empty());
    } else {
        let rest = cs.drop_first();
        lemma_join_bytes(rest);
        assert(parts_bytes(cs).drop_first() =~= parts_bytes(rest));
        lemma_path_bytes(Seq::empty(), cs[0]);
        assert(Seq::<char>::empty() + seq!['/'] + cs[0] =~= seq!['/'] + cs[0]);
        assert(encode_utf8(Seq::<char>::empty()) =~= Seq::<u8>::empty());
        lemma_encode_concat(seq!['/'] + cs[0], join_chars(rest));
        assert(parts_bytes(cs)[0] == encode_utf8(cs[0]));
        assert(join_chars(cs) == seq!['/'] + cs[0] + join_chars(rest));
    }
}

/// Every part is a plain name of one to fifteen bytes.
pub open spec fn plain_byte_parts(cs: Seq<Seq<u8>>) -> bool {
    forall|i: int| 0 <= i < cs.len() ==> plain_part(#[trigger] cs[i]) && 1 <= cs[i].len() <= 15
}

/// Bytes without `/` do not end a directory part.
proof fn lemma_skip_no_slash(s: Seq<u8>, st: int, i: int, j: int)
    requires
        0 <= i <= j <= s.len(),
        forall|x: int| i <= x < j ==> #[trigger] s[x] != SLASH,
    ensures
        segments_from(s, st, i) == segments_from(s, st, j),
    decreases j - i,
{
    if i < j {
        lemma_skip_no_slash(s, st, i + 1, j);
    }
}

/// Scanning `/`-joined parts followed by `/` and a last part, from the `/`
/// at `k` with the current part started at `st`, yields the current part
/// and then the joined parts.
proof fn lemma_segments_join(s: Seq<u8>, st: int, k: int, cs: Seq<Seq<u8>>, name: Seq<u8>)
    requires
        0 <= st <= k <= s.len(),
        s.subrange(k, s.len() as int) == join_parts(cs) + seq![SLASH] + name,
        plain_byte_parts(cs),
        plain_part(name),
    ensures
        segments_from(s, st, k) == seq![s.subrange(st, k)] + cs,
    decreases cs.len(),
{
    let tail = s.subrange(k, s.len() as int);
    assert(tail.len() == s.len() - k);
    assert((join_parts(cs) + seq![SLASH] + name).len() >= 1);
    assert(s[k] == tail[0]);
    if cs.len() == 0 {
        assert(tail =~= seq![SLASH] + name);
        assert forall|x: int| k + 1 <= x < s.len() implies #[trigger] s[x] != SLASH by {
            assert(s[x] == tail[x - k]);
            assert(tail[x - k] == name[x - k - 1]);
        }
        lemma_no_more_segments(s, k + 1, k + 1);
        assert(seq![s.subrange(st, k)] + Seq::<Seq<u8>>::empty() =~= seq![s.subrange(st, k)] + cs);
    } else {
        let c0 = cs[0];
        let rest = cs.drop_first();
        assert(tail =~= seq![SLASH] + c0 + (join_parts(rest) + seq![SLASH] + name));
        let k2 = k + 1 + c0.len();
        assert(plain_part(c0));
        assert forall|x: int| k + 1 <= x < k2 implies #[trigger] s[x] != SLASH by {
            assert(s[x] == tail[x - k]);
            assert(tail[x - k] == c0[x - k - 1]);
        }
        lemma_skip_no_slash(s, k + 1, k + 1, k2);
        let x = join_parts(rest) + seq![SLASH] + name;
        assert(tail.len() == 1 + c0.len() + x.len());
        assert forall|t: int| 0 <= t < x.len() implies #[trigger] s.subrange(k2, s.len() as int)[t] == x[t] by {
            assert(s.subrange(k2, s.len() as int)[t] == s[k2 + t]);
            assert(s[k2 + t] == tail[k2 + t - k]);
            assert(tail[k2 + t - k] == (seq![SLASH] + c0 + x)[1 + c0.len() + t]);
        }
        assert(s.subrange(k2, s.len() as int) =~= x);
        assert(plain_byte_parts(rest)) by {
            assert forall|i: int| 0 <= i < rest.len() implies plain_part(#[trigger] rest[i]) && 1 <= rest[i].len()
                <= 15 by {
                assert(rest[i] == cs[i + 1]);
            }
        }
        lemma_segments_join(s, k + 1, k2, rest, name);
        assert forall|t: int| 0 <= t < c0.len() implies #[trigger] s.subrange(k + 1, k2)[t] == c0[t] by {
            assert(s.subrange(k + 1, k2)[t] == s[k + 1 + t]);
            assert(s[k + 1 + t] == tail[1 + t]);
            assert(tail[1 + t] == (seq![SLASH] + c0 + x)[1 + t]);
        }
        assert(s.subrange(k + 1, k2) =~= c0);
        assert(seq![c0] + rest =~= cs);
        assert(seq![s.subrange(st, k)] + (seq![c0] + rest) =~= seq![s.subrange(st, k)] + cs);
    }
}

/// The parts of the path `root/c1/.../cm/name`: what follows the root is
/// `/c1/.../cm/name`, its directory parts are an empty part and
/// `c1, ..., cm`, and its last part is the name.
pub proof fn lemma_nested_path(root: Seq<u8>, cs: Seq<Seq<u8>>, name: Seq<u8>)
    requires
        plain_byte_parts(cs),
        plain_part(name),
    ensures
        after_first(root + (join_parts(cs) + seq![SLASH] + name), root) == Some(
            join_parts(cs) + seq![SLASH] + name,
        ),
        last_name(root + (join_parts(cs) + seq![SLASH] + name)) == name,
        dir_segments(join_parts(cs) + seq![SLASH] + name) == seq![Seq::<u8>::empty()] + cs,
{
    let rel = join_parts(cs) + seq![SLASH] + name;
    let path = root + rel;
    assert(path.subrange(0, root.len() as int) =~= root);
    assert(occurs_at(path, root, 0));
    assert(first_occurrence_from(path, root, 0) == Some(0int));
    assert(path.subrange(root.len() as int, path.len() as int) =~= rel);
    let pre = root + join_parts(cs);
    assert(path =~= pre + seq![SLASH] + name);
    lemma_name_start(pre, name, path.len() as int);
    assert(path.subrange(pre.len() + 1int, path.len() as int) =~= name);
    assert(rel.subrange(0, rel.len() as int) =~= rel);
    lemma_segments_join(rel, 0, 0, cs, name);
    assert(rel.subrange(0, 0) =~= Seq::<u8>::empty());
}

/// A directory of one block `d` past the block map whose map entry ends
/// its chain, whose first slots hold `entries` (named `names`: plain,
/// different names) and whose other slots are zero.
pub open spec fn dir_block_ok(
    p: TianMuParams,
    img: Seq<u8>,
    d: int,
    names: Seq<Seq<u8>>,
    entries: Seq<DirEntryView>,
) -> bool {
    let base = d * p.block_size;
    &&& root_block(p) <= d < p.block_num
    &&& u64_at(img, p.block_map_addr + 8 * d) == END
    &&& names.len() == entries.len() <= slots_per_block(p)
    &&& forall|j: int|
        0 <= j < entries.len() ==> {
            &&& #[trigger] slot_of(img, base, j) == encode_entry(entries[j])
            &&& entries[j].name == name_field(names[j])
            &&& plain_part(names[j])
            &&& 1 <= names[j].len() <= 15
            &&& entries[j].attr != 0
        }
    &&& forall|j: int| entries.len() <= j < slots_per_block(p) ==> #[trigger] slot_of(img, base, j) == zeros(32)
    &&& forall|j1: int, j2: int| 0 <= j1 < j2 < names.len() ==> names[j1] != names[j2]
}

/// The search of a directory block from slot `j` for a name held at slot
/// `i` finds the item there.
proof fn lemma_search_entries(
    p: TianMuParams,
    img: Seq<u8>,
    d: int,
    names: Seq<Seq<u8>>,
    entries: Seq<DirEntryView>,
    j: int,
    i: int,
    buf: Seq<u8>,
)
    requires
        params_ok(p),
        dir_block_ok(p, img, d, names, entries),
        (d + 1) * p.block_size <= img.len(),
        0 <= j <= i < entries.len(),
        buf.len() == 32,
    ensures
        search_slots(img, d * p.block_size + 32 * j, j, slots_per_block(p), buf, names[i]) == Ok::<
            Option<DirEntryView>,
            MakeError,
        >(Some(entries[i])),
    decreases i - j,
{
    let bs = p.block_size as int;
    let base = d * bs;
    let pos = base + 32 * j;
    lemma_dir_block_past_map(p, d as usize);
    assert(base + bs == (d + 1) * bs) by (nonlinear_arith)
        requires
            base == d * bs,
    ;
    lemma_full_read(img, pos, buf);
    assert(slot_of(img, base, j) == encode_entry(entries[j]));
    lemma_decode_encode(entries[j]);
    lemma_plain_field_matches_only(names[j], names[i]);
    if j < i {
        assert(names[j] != names[i]);
        assert(base + 32 * (j + 1) == pos + 32);
        lemma_search_entries(p, img, d, names, entries, j + 1, i, read_over(img, pos, buf));
    }
}

/// Looking up the name held at slot `i` of a directory block finds the
/// item there.
pub proof fn lemma_lookup_in_dir(
    p: TianMuParams,
    img: Seq<u8>,
    d: int,
    names: Seq<Seq<u8>>,
    entries: Seq<DirEntryView>,
    i: int,
)
    requires
        params_ok(p),
        dir_block_ok(p, img, d, names, entries),
        (d + 1) * p.block_size <= img.len(),
        img.len() <= usize::MAX,
        0 <= i < entries.len(),
    ensures
        spec_get_dir_item(p, img, d as usize, names[i]) == Ok::<Option<DirEntryView>, MakeError>(Some(entries[i])),
{
    let bs = p.block_size as int;
    lemma_dir_block_past_map(p, d as usize);
    assert(d * bs + bs == (d + 1) * bs) by (nonlinear_arith);
    lemma_single_block_chain(p, img, d as usize);
    assert(d * bs + 32 * 0 == d * bs);
    lemma_search_entries(p, img, d, names, entries, 0, i, zeros(32));
    assert(seq![d as usize].drop_first() =~= Seq::<usize>::empty());
}

/// Walking the parts `s` and then one more part is walking `s` and then
/// one step.
#[verifier::spinoff_prover]
pub proof fn lemma_walk_push(p: TianMuParams, img: Seq<u8>, idx: usize, s: Seq<Seq<u8>>, x: Seq<u8>)
    ensures
        walk_dirs(p, img, idx, s.push(x)) == (match walk_dirs(p, img, idx, s) {
            Ok(i2) => walk_step(p, img, i2, x),
            Err(e) => Err(e),
        }),
    decreases s.len(),
{
    if s.len() == 0 {
        assert(s.push(x).drop_first() =~= Seq::<Seq<u8>>::empty());
        assert(s.push(x)[0] == x);
        match walk_step(p, img, idx, x) {
            Ok(i2) => {
                assert(walk_dirs(p, img, i2, Seq::<Seq<u8>>::empty()) == Ok::<usize, MakeError>(i2));
            },
            Err(e) => {},
        }
    } else {
        assert(s.push(x).drop_first() =~= s.drop_first().push(x));
        assert(s.push(x)[0] == s[0]);
        match walk_step(p, img, idx, s[0]) {
            Ok(i2) => {
                lemma_walk_push(p, img, i2, s.drop_first(), x);
            },
            Err(e) => {},
        }
    }
}

/// The item of a directory named `name` whose first block is `b`.
pub open spec fn dir_item(name: Seq<u8>, b: int) -> DirEntryView {
    DirEntryView { name: name_field(name), attr: ATTR_DIRECTORY, start_block: b as u64, length: 0 }
}

/// The block map of an image whose blocks before `front` are taken and
/// the others free and zero.
pub open spec fn map_ok(p: TianMuParams, img: Seq<u8>, front: int) -> bool {
    &&& reserved_blocks(p) <= front <= p.block_num
    &&& forall|b: int| 0 <= b < reserved_blocks(p) ==> #[trigger] u64_at(img, p.block_map_addr + 8 * b) == END
    &&& forall|b: int| reserved_blocks(p) <= b < front ==> !#[trigger] is_free(p, img, b)
    &&& forall|b: int| front <= b < p.block_num ==> #[trigger] is_free(p, img, b)
    &&& forall|i: int| front * p.block_size <= i < p.block_num * p.block_size ==> #[trigger] img[i] == 0
}

/// The directories made so far, by their path parts: each is a one-block
/// directory holding its items; the root is the root directory; every
/// other one is named, with its first block, in its parent; no two share a
/// block, and all were taken before `front`.
pub open spec fn dirs_ok(
    p: TianMuParams,
    img: Seq<u8>,
    dirs: Map<Seq<Seq<u8>>, (int, Seq<Seq<u8>>, Seq<DirEntryView>)>,
    front: int,
) -> bool {
    &&& dirs.dom().contains(Seq::<Seq<u8>>::empty())
    &&& dirs[Seq::<Seq<u8>>::empty()].0 == root_block(p)
    &&& forall|c: Seq<Seq<u8>>|
        #[trigger] dirs.dom().contains(c) ==> {
            &&& plain_byte_parts(c)
            &&& dir_block_ok(p, img, dirs[c].0, dirs[c].1, dirs[c].2)
            &&& (c.len() > 0 ==> reserved_blocks(p) <= dirs[c].0 < front)
        }
    &&& forall|c: Seq<Seq<u8>>|
        #[trigger] dirs.dom().contains(c) && c.len() > 0 ==> {
            &&& dirs.dom().contains(c.drop_last())
            &&& exists|j: int|
                0 <= j < dirs[c.drop_last()].1.len() && #[trigger] dirs[c.drop_last()].1[j] == c.last()
                    && dirs[c.drop_last()].2[j] == dir_item(c.last(), dirs[c].0)
        }
    &&& forall|c1: Seq<Seq<u8>>, c2: Seq<Seq<u8>>|
        #[trigger] dirs.dom().contains(c1) && #[trigger] dirs.dom().contains(c2) && c1 != c2 ==> dirs[c1].0
            != dirs[c2].0
}

/// The files' contents stored so far, by first block: each reads back,
/// lies in taken blocks after the reserved ones, and shares no block with
/// a directory.
pub open spec fn files_ok(
    p: TianMuParams,
    img: Seq<u8>,
    dirs: Map<Seq<Seq<u8>>, (int, Seq<Seq<u8>>, Seq<DirEntryView>)>,
    files: Seq<(int, Seq<u8>)>,
    front: int,
) -> bool {
    &&& forall|q: int|
        0 <= q < files.len() ==> {
            &&& #[trigger] stored_from(p, img, files[q].0, files[q].1)
            &&& reserved_blocks(p) <= files[q].0
            &&& files[q].0 + blocks_for(files[q].1.len() as int, p.block_size as int) <= front
        }
    &&& forall|c: Seq<Seq<u8>>, q: int|
        #[trigger] dirs.dom().contains(c) && 0 <= q < files.len() ==> !(files[q].0 <= dirs[c].0 < files[q].0
            + blocks_for(#[trigger] files[q].1.len() as int, p.block_size as int))
}

/// The image while a tree is copied in: its length is `len0`, and its
/// map, directories and files are as `map_ok`, `dirs_ok` and `files_ok`
/// say.
pub open spec fn tree_state_ok(
    p: TianMuParams,
    img: Seq<u8>,
    len0: int,
    dirs: Map<Seq<Seq<u8>>, (int, Seq<Seq<u8>>, Seq<DirEntryView>)>,
    files: Seq<(int, Seq<u8>)>,
    front: int,
) -> bool {
    &&& params_ok(p)
    &&& img.len() == len0
    &&& len0 <= usize::MAX
    &&& len0 >= p.block_num * p.block_size
    &&& len0 >= p.block_map_addr + 8 * p.block_num
    &&& map_ok(p, img, front)
    &&& dirs_ok(p, img, dirs, front)
    &&& files_ok(p, img, dirs, files, front)
}

/// Walking the parts of a directory made so far from the root reaches its
/// block.
pub proof fn lemma_walk_state(
    p: TianMuParams,
    img: Seq<u8>,
    len0: int,
    dirs: Map<Seq<Seq<u8>>, (int, Seq<Seq<u8>>, Seq<DirEntryView>)>,
    files: Seq<(int, Seq<u8>)>,
    front: int,
    c: Seq<Seq<u8>>,
)
    requires
        tree_state_ok(p, img, len0, dirs, files, front),
        dirs.dom().contains(c),
    ensures
        walk_dirs(p, img, root_block(p), c) == Ok::<usize, MakeError>(dirs[c].0 as usize),
    decreases c.len(),
{
    if c.len() == 0 {
        assert(c =~= Seq::<Seq<u8>>::empty());
    } else {
        let par = c.drop_last();
        let last = c.last();
        assert(par.push(last) =~= c);
        assert(dirs.dom().contains(par));
        lemma_walk_state(p, img, len0, dirs, files, front, par);
        lemma_walk_push(p, img, root_block(p), par, last);
        let dp = dirs[par].0;
        let j = choose|j: int|
            0 <= j < dirs[par].1.len() && #[trigger] dirs[par].1[j] == last && dirs[par].2[j] == dir_item(
                last,
                dirs[c].0,
            );
        assert(plain_byte_parts(c));
        assert(plain_part(c[c.len() - 1]) && 1 <= c[c.len() - 1].len() <= 15);
        assert(dir_block_ok(p, img, dp, dirs[par].1, dirs[par].2));
        assert((dp + 1) * p.block_size <= p.block_num * p.block_size) by (nonlinear_arith)
            requires
                dp + 1 <= p.block_num,
                p.block_size > 0,
        ;
        lemma_lookup_in_dir(p, img, dp, dirs[par].1, dirs[par].2, j);
        assert(dirs[c].0 < p.block_num);
    }
}

/// The directory that holds `c/name`, for a directory `c` made so far, is
/// at `c`'s block.
pub proof fn lemma_find_state(
    p: TianMuParams,
    img: Seq<u8>,
    len0: int,
    dirs: Map<Seq<Seq<u8>>, (int, Seq<Seq<u8>>, Seq<DirEntryView>)>,
    files: Seq<(int, Seq<u8>)>,
    front: int,
    c: Seq<Seq<u8>>,
    name: Seq<u8>,
)
    requires
        tree_state_ok(p, img, len0, dirs, files, front),
        dirs.dom().contains(c),
        plain_part(name),
    ensures
        spec_find_dir_addr(p, img, join_parts(c) + seq![SLASH] + name) == Ok::<usize, MakeError>(
            (dirs[c].0 * p.block_size) as usize,
        ),
        dirs[c].0 * p.block_size <= usize::MAX,
{
    let rb = root_block(p);
    lemma_nested_path(Seq::empty(), c, name);
    lemma_walk_state(p, img, len0, dirs, files, front, c);
    let segs = seq![Seq::<u8>::empty()] + c;
    assert(segs[0] == Seq::<u8>::empty());
    assert(segs.drop_first() =~= c);
    assert(walk_step(p, img, rb, segs[0]) == Ok::<usize, MakeError>(rb));
    assert(walk_dirs(p, img, rb, segs) == walk_dirs(p, img, rb, c));
    let d = dirs[c].0;
    assert(d < p.block_num);
    assert(d * p.block_size <= p.block_num * p.block_size) by (nonlinear_arith)
        requires
            d < p.block_num,
            p.block_size > 0,
    ;
}

/// Storing a file's contents while a tree is copied in takes the blocks
/// from `front` on, and leaves the image as the state says with the file
/// recorded and `front` moved past its blocks.
#[verifier::spinoff_prover]
pub proof fn lemma_tree_store(
    p: TianMuParams,
    img: Seq<u8>,
    len0: int,
    dirs: Map<Seq<Seq<u8>>, (int, Seq<Seq<u8>>, Seq<DirEntryView>)>,
    files: Seq<(int, Seq<u8>)>,
    front: int,
    data: Seq<u8>,
)
    requires
        tree_state_ok(p, img, len0, dirs, files, front),
        data.len() > 0,
        data.len() + p.block_size <= usize::MAX,
        front + blocks_for(data.len() as int, p.block_size as int) <= p.block_num,
    ensures
        spec_store(p, img, data) is Ok,
        spec_store(p, img, data)->Ok_0.0 == front,
        tree_state_ok(
            p,
            spec_store(p, img, data)->Ok_0.1,
            len0,
            dirs,
            files.push((front, data)),
            front + blocks_for(data.len() as int, p.block_size as int),
        ),
{
    let bs = p.block_size as int;
    let bn = p.block_num as int;
    let a = p.block_map_addr as int;
    let res = reserved_blocks(p);
    let num = blocks_for(data.len() as int, bs);
    lemma_root_past_map(p);
    assert(num >= 1) by (nonlinear_arith)
        requires
            num == (data.len() + bs - 1) / bs,
            data.len() >= 1,
            bs > 0,
    {
        assert(data.len() + bs - 1 >= bs);
    }
    assert forall|b: int| 0 <= b < front implies !#[trigger] is_free(p, img, b) by {
        if b < res {
            assert(u64_at(img, a + 8 * b) == END);
        }
    }
    lemma_first_free_from(p, img, front, num);
    let blocks = spec_find_free(p, img, num)->Ok_0;
    assert(blocks == Seq::new(num as nat, |i: int| (front + i) as usize));
    assert(spec_store(p, img, data) is Ok);
    let stored = spec_store(p, img, data)->Ok_0.1;
    assert forall|b: int| 0 <= b < res implies !#[trigger] is_free(p, img, b) by {
        assert(u64_at(img, a + 8 * b) == END);
    }
    lemma_stored_contents_read_back(p, img, data);
    lemma_store_keeps_root(p, img, data);
    assert(stored.len() == len0);
    assert(blocks[0] == front);
    assert(blocks.last() == front + num - 1);
    // The new file reads back.
    lemma_stored_from_blocks(p, stored, front, data, blocks);
    // Bytes outside the new blocks and their map entries are as they were.
    assert forall|i: int|
        0 <= i < len0 && (i < front * bs || (front + num) * bs <= i) && !(a + 8 * front <= i < a + 8 * (front
            + num)) implies #[trigger] stored[i] == img[i] by {
        assert((blocks.last() + 1) * bs == (front + num) * bs);
        if in_entry_of(p, blocks, i) {
            let j = choose|j: int|
                0 <= j < blocks.len() && a + 8 * #[trigger] blocks[j] <= i < a + 8 * blocks[j] + 8;
            assert(blocks[j] == front + j);
            assert(false);
        }
    }
    lemma_tree_store_state(p, img, stored, len0, dirs, files, front, data);
}

/// The state after storing: what `lemma_tree_store` shows once the
/// store's effect on the bytes is known.
#[verifier::spinoff_prover]
proof fn lemma_tree_store_state(
    p: TianMuParams,
    img: Seq<u8>,
    stored: Seq<u8>,
    len0: int,
    dirs: Map<Seq<Seq<u8>>, (int, Seq<Seq<u8>>, Seq<DirEntryView>)>,
    files: Seq<(int, Seq<u8>)>,
    front: int,
    data: Seq<u8>,
)
    requires
        tree_state_ok(p, img, len0, dirs, files, front),
        data.len() > 0,
        front + blocks_for(data.len() as int, p.block_size as int) <= p.block_num,
        stored.len() == len0,
        stored_from(p, stored, front, data),
        forall|i: int|
            0 <= i < len0 && (i < front * p.block_size || (front + blocks_for(data.len() as int, p.block_size as int))
                * p.block_size <= i) && !(p.block_map_addr + 8 * front <= i < p.block_map_addr + 8 * (front
                + blocks_for(data.len() as int, p.block_size as int))) ==> #[trigger] stored[i] == img[i],
    ensures
        tree_state_ok(
            p,
            stored,
            len0,
            dirs,
            files.push((front, data)),
            front + blocks_for(data.len() as int, p.block_size as int),
        ),
{
    let bs = p.block_size as int;
    let bn = p.block_num as int;
    let a = p.block_map_addr as int;
    let res = reserved_blocks(p);
    let num = blocks_for(data.len() as int, bs);
    let front2 = front + num;
    let files2 = files.push((front, data));
    lemma_root_past_map(p);
    let rb = root_block(p) as int;
    assert(res == rb + 1);
    assert(res * bs <= front * bs) by (nonlinear_arith)
        requires
            res <= front,
            bs > 0,
    ;
    assert(rb * bs + bs == res * bs) by (nonlinear_arith)
        requires
            res == rb + 1,
    ;
    assert(front * bs <= front2 * bs && front2 * bs <= bn * bs) by (nonlinear_arith)
        requires
            front <= front2 <= bn,
            bs > 0,
    ;
    // Map entries outside the new blocks are as they were.
    assert forall|b: int| 0 <= b < bn && (b < front || front2 <= b) implies stored.subrange(a + 8 * b, a + 8 * b + 8)
        == #[trigger] img.subrange(a + 8 * b, a + 8 * b + 8) by {
        assert(stored.subrange(a + 8 * b, a + 8 * b + 8) =~= img.subrange(a + 8 * b, a + 8 * b + 8));
    }
    // map_ok
    assert forall|b: int| 0 <= b < res implies #[trigger] u64_at(stored, a + 8 * b) == END by {
        assert(stored.subrange(a + 8 * b, a + 8 * b + 8) == img.subrange(a + 8 * b, a + 8 * b + 8));
        assert(u64_at(img, a + 8 * b) == END);
    }
    assert forall|b: int| res <= b < front2 implies !#[trigger] is_free(p, stored, b) by {
        if b < front {
            assert(stored.subrange(a + 8 * b, a + 8 * b + 8) == img.subrange(a + 8 * b, a + 8 * b + 8));
            assert(!is_free(p, img, b));
        } else {
            let c = b - front;
            assert(chunk(data, bs, c) == chunk(data, bs, c));
        }
    }
    assert forall|b: int| front2 <= b < bn implies #[trigger] is_free(p, stored, b) by {
        assert(stored.subrange(a + 8 * b, a + 8 * b + 8) == img.subrange(a + 8 * b, a + 8 * b + 8));
        assert(is_free(p, img, b));
    }
    assert forall|i: int| front2 * bs <= i < bn * bs implies #[trigger] stored[i] == 0 by {
        assert(img[i] == 0);
    }
    assert(map_ok(p, stored, front2));
    // dirs_ok: directory blocks lie before `front`, past the map.
    assert forall|c: Seq<Seq<u8>>| #[trigger] dirs.dom().contains(c) implies dir_block_ok(
        p,
        stored,
        dirs[c].0,
        dirs[c].1,
        dirs[c].2,
    ) by {
        let d = dirs[c].0;
        assert(dir_block_ok(p, img, d, dirs[c].1, dirs[c].2));
        lemma_dir_block_past_map(p, d as usize);
        assert(d < front) by {
            if c.len() == 0 {
                assert(c =~= Seq::<Seq<u8>>::empty());
            }
        }
        assert(d * bs + bs <= front * bs) by (nonlinear_arith)
            requires
                d < front,
                bs > 0,
        ;
        assert(stored.subrange(a + 8 * d, a + 8 * d + 8) =~= img.subrange(a + 8 * d, a + 8 * d + 8));
        assert(rb * bs <= d * bs) by (nonlinear_arith)
            requires
                rb <= d,
                bs > 0,
        ;
        assert forall|j: int| 0 <= j < slots_per_block(p) implies #[trigger] slot_of(stored, d * bs, j) == slot_of(
            img,
            d * bs,
            j,
        ) by {
            assert(slot_of(stored, d * bs, j) =~= slot_of(img, d * bs, j));
        }
    }
    assert(dirs_ok(p, stored, dirs, front2));
    // files_ok
    assert forall|q: int| 0 <= q < files2.len() implies {
        &&& #[trigger] stored_from(p, stored, files2[q].0, files2[q].1)
        &&& reserved_blocks(p) <= files2[q].0
        &&& files2[q].0 + blocks_for(files2[q].1.len() as int, p.block_size as int) <= front2
    } by {
        if q < files.len() {
            let sq = files[q].0;
            let nq = blocks_for(files[q].1.len() as int, bs);
            assert(files2[q] == files[q]);
            assert(stored_from(p, img, sq, files[q].1));
            assert((sq + nq) * bs <= front * bs) by (nonlinear_arith)
                requires
                    sq + nq <= front,
                    bs > 0,
            ;
            assert(res * bs <= sq * bs) by (nonlinear_arith)
                requires
                    res <= sq,
                    bs > 0,
            ;
            assert(same_bytes(img, stored, sq * bs, (sq + nq) * bs));
            assert(same_bytes(img, stored, a + 8 * sq, a + 8 * (sq + nq)));
            lemma_stored_from_frame(p, img, stored, sq, files[q].1);
        }
    }
    assert forall|c: Seq<Seq<u8>>, q: int|
        #[trigger] dirs.dom().contains(c) && 0 <= q < files2.len() implies !(files2[q].0 <= dirs[c].0 < files2[q].0
        + blocks_for(#[trigger] files2[q].1.len() as int, p.block_size as int)) by {
        if q < files.len() {
            assert(files2[q] == files[q]);
        } else {
            if c.len() == 0 {
                assert(c =~= Seq::<Seq<u8>>::empty());
            }
        }
    }
    assert(files_ok(p, stored, dirs, files2, front2));
}

/// Taking a block for a new directory while a tree is copied in takes the
/// block `front`, marks it as a chain of one block, keeps it zero, and
/// leaves the image as the state says with `front` moved past it.
#[verifier::spinoff_prover]
pub proof fn lemma_tree_fill(
    p: TianMuParams,
    img: Seq<u8>,
    len0: int,
    dirs: Map<Seq<Seq<u8>>, (int, Seq<Seq<u8>>, Seq<DirEntryView>)>,
    files: Seq<(int, Seq<u8>)>,
    front: int,
)
    requires
        tree_state_ok(p, img, len0, dirs, files, front),
        front < p.block_num,
    ensures
        spec_find_free(p, img, 1) == Ok::<Seq<usize>, MakeError>(seq![front as usize]),
        tree_state_ok(p, spec_fill(p, img, seq![front as usize]), len0, dirs, files, front + 1),
        u64_at(spec_fill(p, img, seq![front as usize]), p.block_map_addr + 8 * front) == END,
        forall|i: int|
            front * p.block_size <= i < front * p.block_size + p.block_size ==> #[trigger] spec_fill(
                p,
                img,
                seq![front as usize],
            )[i] == 0,
{
    let bs = p.block_size as int;
    let bn = p.block_num as int;
    let a = p.block_map_addr as int;
    let res = reserved_blocks(p);
    let bl = seq![front as usize];
    lemma_root_past_map(p);
    let rb = root_block(p) as int;
    assert forall|b: int| 0 <= b < front implies !#[trigger] is_free(p, img, b) by {
        if b < res {
            assert(u64_at(img, a + 8 * b) == END);
        }
    }
    lemma_first_free_from(p, img, front, 1);
    assert(Seq::new(1, |i: int| (front + i) as usize) =~= bl);
    assert(blocks_in_range(p, bl));
    assert(distinct(bl));
    lemma_fill_links(p, img, bl);
    let filled = spec_fill(p, img, bl);
    assert(next_link(bl, 0) == END);
    assert(filled.len() == len0);
    // Only the new block's map entry changed.
    assert forall|i: int| 0 <= i < len0 && !(a + 8 * front <= i < a + 8 * front + 8) implies #[trigger] filled[i]
        == img[i] by {
        if in_entry_of(p, bl, i) {
            let j = choose|j: int| 0 <= j < bl.len() && a + 8 * #[trigger] bl[j] <= i < a + 8 * bl[j] + 8;
            assert(j == 0);
            assert(false);
        }
    }
    assert(res * bs <= front * bs) by (nonlinear_arith)
        requires
            res <= front,
            bs > 0,
    ;
    assert(rb * bs + bs == res * bs) by (nonlinear_arith)
        requires
            res == rb + 1,
    ;
    assert(front * bs + bs == (front + 1) * bs && (front + 1) * bs <= bn * bs) by (nonlinear_arith)
        requires
            front + 1 <= bn,
            bs > 0,
    ;
    assert forall|b: int| 0 <= b < bn && b != front implies filled.subrange(a + 8 * b, a + 8 * b + 8)
        == #[trigger] img.subrange(a + 8 * b, a + 8 * b + 8) by {
        assert(filled.subrange(a + 8 * b, a + 8 * b + 8) =~= img.subrange(a + 8 * b, a + 8 * b + 8));
    }
    // map_ok
    assert forall|b: int| 0 <= b < res implies #[trigger] u64_at(filled, a + 8 * b) == END by {
        assert(filled.subrange(a + 8 * b, a + 8 * b + 8) == img.subrange(a + 8 * b, a + 8 * b + 8));
        assert(u64_at(img, a + 8 * b) == END);
    }
    assert forall|b: int| res <= b < front + 1 implies !#[trigger] is_free(p, filled, b) by {
        if b < front {
            assert(filled.subrange(a + 8 * b, a + 8 * b + 8) == img.subrange(a + 8 * b, a + 8 * b + 8));
            assert(!is_free(p, img, b));
        }
    }
    assert forall|b: int| front + 1 <= b < bn implies #[trigger] is_free(p, filled, b) by {
        assert(filled.subrange(a + 8 * b, a + 8 * b + 8) == img.subrange(a + 8 * b, a + 8 * b + 8));
        assert(is_free(p, img, b));
    }
    assert forall|i: int| (front + 1) * bs <= i < bn * bs implies #[trigger] filled[i] == 0 by {
        assert(img[i] == 0);
    }
    assert forall|i: int| front * bs <= i < front * bs + bs implies #[trigger] filled[i] == 0 by {
        assert(img[i] == 0);
    }
    assert(map_ok(p, filled, front + 1));
    // dirs_ok
    assert forall|c: Seq<Seq<u8>>| #[trigger] dirs.dom().contains(c) implies dir_block_ok(
        p,
        filled,
        dirs[c].0,
        dirs[c].1,
        dirs[c].2,
    ) by {
        let d = dirs[c].0;
        assert(dir_block_ok(p, img, d, dirs[c].1, dirs[c].2));
        lemma_dir_block_past_map(p, d as usize);
        assert(d < front) by {
            if c.len() == 0 {
                assert(c =~= Seq::<Seq<u8>>::empty());
            }
        }
        assert(filled.subrange(a + 8 * d, a + 8 * d + 8) == img.subrange(a + 8 * d, a + 8 * d + 8));
        assert(rb * bs <= d * bs) by (nonlinear_arith)
            requires
                rb <= d,
                bs > 0,
        ;
        assert(d * bs + bs <= bn * bs) by (nonlinear_arith)
            requires
                d < bn,
                bs > 0,
        ;
        assert forall|j: int| 0 <= j < slots_per_block(p) implies #[trigger] slot_of(filled, d * bs, j) == slot_of(
            img,
            d * bs,
            j,
        ) by {
            assert(slot_of(filled, d * bs, j) =~= slot_of(img, d * bs, j));
        }
    }
    assert(dirs_ok(p, filled, dirs, front + 1));
    // files_ok
    assert forall|q: int| 0 <= q < files.len() implies {
        &&& #[trigger] stored_from(p, filled, files[q].0, files[q].1)
        &&& reserved_blocks(p) <= files[q].0
        &&& files[q].0 + blocks_for(files[q].1.len() as int, p.block_size as int) <= front + 1
    } by {
        let sq = files[q].0;
        let nq = blocks_for(files[q].1.len() as int, bs);
        assert(stored_from(p, img, sq, files[q].1));
        assert((sq + nq) * bs <= bn * bs) by (nonlinear_arith)
            requires
                sq + nq <= bn,
                bs > 0,
        ;
        assert(res * bs <= sq * bs) by (nonlinear_arith)
            requires
                res <= sq,
                bs > 0,
        ;
        assert(same_bytes(img, filled, sq * bs, (sq + nq) * bs));
        assert(same_bytes(img, filled, a + 8 * sq, a + 8 * (sq + nq)));
        lemma_stored_from_frame(p, img, filled, sq, files[q].1);
    }
    assert(files_ok(p, filled, dirs, files, front + 1));
}

/// Adding an item named `name` to the directory `c` while a tree is copied
/// in stores it in the directory's first free slot, and leaves the image
/// as the state says with the item recorded in `c`.
#[verifier::spinoff_prover]
pub proof fn lemma_tree_add_item(
    p: TianMuParams,
    img: Seq<u8>,
    len0: int,
    dirs: Map<Seq<Seq<u8>>, (int, Seq<Seq<u8>>, Seq<DirEntryView>)>,
    files: Seq<(int, Seq<u8>)>,
    front: int,
    c: Seq<Seq<u8>>,
    name: Seq<u8>,
    item: DirEntryView,
)
    requires
        tree_state_ok(p, img, len0, dirs, files, front),
        dirs.dom().contains(c),
        dirs[c].1.len() < slots_per_block(p),
        plain_part(name),
        1 <= name.len() <= 15,
        forall|j: int| 0 <= j < dirs[c].1.len() ==> #[trigger] dirs[c].1[j] != name,
        item.name == name_field(name),
        item.attr != 0,
    ensures
        spec_add_dir_item(p, img, dirs[c].0 as usize, item) == Ok::<Seq<u8>, MakeError>(
            write_at(img, dirs[c].0 * p.block_size + 32 * dirs[c].1.len(), encode_entry(item)),
        ),
        tree_state_ok(
            p,
            write_at(img, dirs[c].0 * p.block_size + 32 * dirs[c].1.len(), encode_entry(item)),
            len0,
            dirs.insert(c, (dirs[c].0, dirs[c].1.push(name), dirs[c].2.push(item))),
            files,
            front,
        ),
{
    let bs = p.block_size as int;
    let bn = p.block_num as int;
    let a = p.block_map_addr as int;
    let res = reserved_blocks(p);
    let d = dirs[c].0;
    let names = dirs[c].1;
    let entries = dirs[c].2;
    let k = names.len() as int;
    let base = d * bs;
    let t = base + 32 * k;
    lemma_root_past_map(p);
    let rb = root_block(p) as int;
    assert(dir_block_ok(p, img, d, names, entries));
    lemma_dir_block_past_map(p, d as usize);
    assert(d < front || d == rb) by {
        if c.len() == 0 {
            assert(c =~= Seq::<Seq<u8>>::empty());
        }
    }
    assert(res == rb + 1);
    assert(d * bs + bs <= front * bs) by (nonlinear_arith)
        requires
            d < front,
            bs > 0,
    ;
    assert(rb * bs <= d * bs) by (nonlinear_arith)
        requires
            rb <= d,
            bs > 0,
    ;
    assert(d * bs + bs <= bn * bs) by (nonlinear_arith)
        requires
            d < bn,
            bs > 0,
    ;
    assert(d * bs + bs == (d + 1) * bs) by (nonlinear_arith);
    // The first free slot is slot `k`.
    assert(slot_of(img, base, k) == zeros(32));
    assert(img[base + 32 * k + 15] == 0) by {
        assert(img[base + 32 * k + 15] == slot_of(img, base, k)[15]);
    }
    let m = lemma_add_slot(p, img, d as usize, item);
    if m < k {
        assert(slot_of(img, base, m) == encode_entry(entries[m]));
        lemma_decode_encode(entries[m]);
        assert(img[base + 32 * m + 15] == slot_of(img, base, m)[15]);
        assert(false);
    }
    if m > k {
        assert(img[base + 32 * k + 15] != 0);
        assert(false);
    }
    let img2 = write_at(img, t, encode_entry(item));
    lemma_decode_encode(item);
    assert(img2.len() == len0);
    assert forall|i: int| 0 <= i < len0 && !(t <= i < t + 32) implies #[trigger] img2[i] == img[i] by {}
    let dirs2 = dirs.insert(c, (d, names.push(name), entries.push(item)));
    // map_ok
    assert forall|b: int| 0 <= b < bn implies img2.subrange(a + 8 * b, a + 8 * b + 8) == #[trigger] img.subrange(
        a + 8 * b,
        a + 8 * b + 8,
    ) by {
        assert(img2.subrange(a + 8 * b, a + 8 * b + 8) =~= img.subrange(a + 8 * b, a + 8 * b + 8));
    }
    assert forall|b: int| 0 <= b < res implies #[trigger] u64_at(img2, a + 8 * b) == END by {
        assert(img2.subrange(a + 8 * b, a + 8 * b + 8) == img.subrange(a + 8 * b, a + 8 * b + 8));
        assert(u64_at(img, a + 8 * b) == END);
    }
    assert forall|b: int| res <= b < front implies !#[trigger] is_free(p, img2, b) by {
        assert(img2.subrange(a + 8 * b, a + 8 * b + 8) == img.subrange(a + 8 * b, a + 8 * b + 8));
        assert(!is_free(p, img, b));
    }
    assert forall|b: int| front <= b < bn implies #[trigger] is_free(p, img2, b) by {
        assert(img2.subrange(a + 8 * b, a + 8 * b + 8) == img.subrange(a + 8 * b, a + 8 * b + 8));
        assert(is_free(p, img, b));
    }
    assert forall|i: int| front * bs <= i < bn * bs implies #[trigger] img2[i] == 0 by {
        assert(img[i] == 0);
    }
    assert(map_ok(p, img2, front));
    // dirs_ok
    assert forall|x: Seq<Seq<u8>>| #[trigger] dirs2.dom().contains(x) implies {
        &&& plain_byte_parts(x)
        &&& dir_block_ok(p, img2, dirs2[x].0, dirs2[x].1, dirs2[x].2)
        &&& (x.len() > 0 ==> reserved_blocks(p) <= dirs2[x].0 < front)
    } by {
        assert(dirs.dom().contains(x));
        let dx = dirs[x].0;
        assert(dirs2[x].0 == dx);
        lemma_dir_block_past_map(p, dx as usize);
        assert(rb * bs <= dx * bs) by (nonlinear_arith)
            requires
                rb <= dx,
                bs > 0,
        ;
        assert(dx * bs + bs <= bn * bs) by (nonlinear_arith)
            requires
                dx < bn,
                bs > 0,
        ;
        assert(img2.subrange(a + 8 * dx, a + 8 * dx + 8) == img.subrange(a + 8 * dx, a + 8 * dx + 8));
        if x == c {
            let names2 = names.push(name);
            let entries2 = entries.push(item);
            assert(dirs2[x] == (d, names2, entries2));
            assert forall|j: int| 0 <= j < entries2.len() implies {
                &&& #[trigger] slot_of(img2, base, j) == encode_entry(entries2[j])
                &&& entries2[j].name == name_field(names2[j])
                &&& plain_part(names2[j])
                &&& 1 <= names2[j].len() <= 15
                &&& entries2[j].attr != 0
            } by {
                if j < k {
                    assert(slot_of(img2, base, j) =~= slot_of(img, base, j));
                } else {
                    assert(slot_of(img2, base, j) =~= encode_entry(item));
                }
            }
            assert forall|j: int| entries2.len() <= j < slots_per_block(p) implies #[trigger] slot_of(img2, base, j)
                == zeros(32) by {
                assert(slot_of(img2, base, j) =~= slot_of(img, base, j));
            }
            assert forall|j1: int, j2: int| 0 <= j1 < j2 < names2.len() implies names2[j1] != names2[j2] by {
                if j2 == k {
                    assert(names2[j1] == names[j1]);
                }
            }
        } else {
            assert(dirs2[x] == dirs[x]);
            assert(dx != d);
            assert(dir_block_ok(p, img, dx, dirs[x].1, dirs[x].2));
            if dx < d {
                assert(dx * bs + bs <= d * bs) by (nonlinear_arith)
                    requires
                        dx < d,
                        bs > 0,
                ;
            } else {
                assert(d * bs + bs <= dx * bs) by (nonlinear_arith)
                    requires
                        d < dx,
                        bs > 0,
                ;
            }
            assert forall|j: int| 0 <= j < slots_per_block(p) implies #[trigger] slot_of(img2, dx * bs, j) == slot_of(
                img,
                dx * bs,
                j,
            ) by {
                assert(slot_of(img2, dx * bs, j) =~= slot_of(img, dx * bs, j));
            }
        }
    }
    assert forall|x: Seq<Seq<u8>>| #[trigger] dirs2.dom().contains(x) && x.len() > 0 implies {
        &&& dirs2.dom().contains(x.drop_last())
        &&& exists|j: int|
            0 <= j < dirs2[x.drop_last()].1.len() && #[trigger] dirs2[x.drop_last()].1[j] == x.last()
                && dirs2[x.drop_last()].2[j] == dir_item(x.last(), dirs2[x].0)
    } by {
        assert(dirs.dom().contains(x));
        let px = x.drop_last();
        assert(dirs.dom().contains(px));
        let j = choose|j: int|
            0 <= j < dirs[px].1.len() && #[trigger] dirs[px].1[j] == x.last() && dirs[px].2[j] == dir_item(
                x.last(),
                dirs[x].0,
            );
        assert(dirs2[x].0 == dirs[x].0);
        if px == c {
            assert(dirs2[px].1 == names.push(name));
            assert(dirs2[px].2 == entries.push(item));
            assert(dirs2[px].1[j] == dirs[px].1[j]);
            assert(dirs2[px].2[j] == dirs[px].2[j]);
        } else {
            assert(dirs2[px] == dirs[px]);
        }
        assert(0 <= j < dirs2[px].1.len() && dirs2[px].1[j] == x.last() && dirs2[px].2[j] == dir_item(
            x.last(),
            dirs2[x].0,
        ));
    }
    assert forall|c1: Seq<Seq<u8>>, c2: Seq<Seq<u8>>|
        #[trigger] dirs2.dom().contains(c1) && #[trigger] dirs2.dom().contains(c2) && c1 != c2 implies dirs2[c1].0
        != dirs2[c2].0 by {
        assert(dirs.dom().contains(c1) && dirs.dom().contains(c2));
    }
    assert(dirs2.dom() =~= dirs.dom());
    assert(dirs_ok(p, img2, dirs2, front));
    lemma_item_files_ok(p, img, img2, len0, dirs, dirs2, files, front, c, t);
}

/// The files stay stored when one slot of a directory's block changes.
proof fn lemma_item_files_ok(
    p: TianMuParams,
    img: Seq<u8>,
    img2: Seq<u8>,
    len0: int,
    dirs: Map<Seq<Seq<u8>>, (int, Seq<Seq<u8>>, Seq<DirEntryView>)>,
    dirs2: Map<Seq<Seq<u8>>, (int, Seq<Seq<u8>>, Seq<DirEntryView>)>,
    files: Seq<(int, Seq<u8>)>,
    front: int,
    c: Seq<Seq<u8>>,
    t: int,
)
    requires
        tree_state_ok(p, img, len0, dirs, files, front),
        dirs.dom().contains(c),
        dirs[c].0 * p.block_size <= t,
        t + 32 <= dirs[c].0 * p.block_size + p.block_size,
        img2.len() == len0,
        forall|i: int| 0 <= i < len0 && !(t <= i < t + 32) ==> #[trigger] img2[i] == img[i],
        dirs2.dom() == dirs.dom(),
        forall|x: Seq<Seq<u8>>| #[trigger] dirs.dom().contains(x) ==> dirs2[x].0 == dirs[x].0,
    ensures
        files_ok(p, img2, dirs2, files, front),
{
    let bs = p.block_size as int;
    let bn = p.block_num as int;
    let a = p.block_map_addr as int;
    let res = reserved_blocks(p);
    let d = dirs[c].0;
    lemma_root_past_map(p);
    let rb = root_block(p) as int;
    assert(dir_block_ok(p, img, d, dirs[c].1, dirs[c].2));
    assert(rb * bs <= d * bs) by (nonlinear_arith)
        requires
            rb <= d,
            bs > 0,
    ;
    assert forall|q: int| 0 <= q < files.len() implies {
        &&& #[trigger] stored_from(p, img2, files[q].0, files[q].1)
        &&& reserved_blocks(p) <= files[q].0
        &&& files[q].0 + blocks_for(files[q].1.len() as int, p.block_size as int) <= front
    } by {
        let sq = files[q].0;
        let nq = blocks_for(files[q].1.len() as int, bs);
        assert(stored_from(p, img, sq, files[q].1));
        assert(!(sq <= d < sq + nq));
        assert((sq + nq) * bs <= bn * bs) by (nonlinear_arith)
            requires
                sq + nq <= bn,
                bs > 0,
        ;
        assert(res * bs <= sq * bs) by (nonlinear_arith)
            requires
                res <= sq,
                bs > 0,
        ;
        if d < sq {
            assert(d * bs + bs <= sq * bs) by (nonlinear_arith)
                requires
                    d < sq,
                    bs > 0,
            ;
        } else {
            assert((sq + nq) * bs <= d * bs) by (nonlinear_arith)
                requires
                    sq + nq <= d,
                    bs > 0,
            ;
        }
        assert(same_bytes(img, img2, sq * bs, (sq + nq) * bs));
        assert(same_bytes(img, img2, a + 8 * sq, a + 8 * (sq + nq)));
        lemma_stored_from_frame(p, img, img2, sq, files[q].1);
    }
    assert forall|x: Seq<Seq<u8>>, q: int|
        #[trigger] dirs2.dom().contains(x) && 0 <= q < files.len() implies !(files[q].0 <= dirs2[x].0 < files[q].0
        + blocks_for(#[trigger] files[q].1.len() as int, p.block_size as int)) by {
        assert(dirs.dom().contains(x));
        assert(dirs2[x].0 == dirs[x].0);
    }
    assert(files_ok(p, img2, dirs2, files, front));
}

/// A block `g` taken for a directory, marked as a chain of one block,
/// zero, and named in its parent `c` as `name`, makes `c/name` a
/// directory of the state.
#[verifier::spinoff_prover]
pub proof fn lemma_tree_new_dir(
    p: TianMuParams,
    img: Seq<u8>,
    len0: int,
    dirs: Map<Seq<Seq<u8>>, (int, Seq<Seq<u8>>, Seq<DirEntryView>)>,
    files: Seq<(int, Seq<u8>)>,
    front: int,
    c: Seq<Seq<u8>>,
    name: Seq<u8>,
    g: int,
)
    requires
        tree_state_ok(p, img, len0, dirs, files, front),
        reserved_blocks(p) <= g < front,
        u64_at(img, p.block_map_addr + 8 * g) == END,
        forall|i: int| g * p.block_size <= i < g * p.block_size + p.block_size ==> #[trigger] img[i] == 0,
        dirs.dom().contains(c),
        !dirs.dom().contains(c.push(name)),
        plain_part(name),
        1 <= name.len() <= 15,
        exists|j: int|
            0 <= j < dirs[c].1.len() && #[trigger] dirs[c].1[j] == name && dirs[c].2[j] == dir_item(name, g),
        forall|x: Seq<Seq<u8>>| #[trigger] dirs.dom().contains(x) ==> dirs[x].0 != g,
        forall|q: int|
            0 <= q < files.len() ==> files[q].0 + blocks_for(#[trigger] files[q].1.len() as int, p.block_size as int)
                <= g,
    ensures
        tree_state_ok(
            p,
            img,
            len0,
            dirs.insert(c.push(name), (g, Seq::<Seq<u8>>::empty(), Seq::<DirEntryView>::empty())),
            files,
            front,
        ),
{
    let bs = p.block_size as int;
    let key = c.push(name);
    let dirs2 = dirs.insert(key, (g, Seq::<Seq<u8>>::empty(), Seq::<DirEntryView>::empty()));
    lemma_root_past_map(p);
    let rb = root_block(p) as int;
    assert(reserved_blocks(p) == rb + 1);
    lemma_dir_block_past_map(p, g as usize);
    assert(g * bs + bs == (g + 1) * bs) by (nonlinear_arith);
    assert(plain_byte_parts(key)) by {
        assert(plain_byte_parts(c));
        assert forall|i: int| 0 <= i < key.len() implies plain_part(#[trigger] key[i]) && 1 <= key[i].len() <= 15 by {
            if i < c.len() {
                assert(key[i] == c[i]);
            } else {
                assert(key[i] == name);
            }
        }
    }
    assert((g + 1) * bs <= p.block_num * bs) by (nonlinear_arith)
        requires
            g + 1 <= p.block_num,
            bs > 0,
    ;
    assert(dir_block_ok(p, img, g, Seq::<Seq<u8>>::empty(), Seq::<DirEntryView>::empty())) by {
        assert forall|j: int| 0 <= j < slots_per_block(p) implies #[trigger] slot_of(img, g * bs, j) == zeros(32) by {
            assert(slot_of(img, g * bs, j) =~= zeros(32));
        }
    }
    assert(key.drop_last() =~= c);
    assert(key.last() == name);
    assert forall|x: Seq<Seq<u8>>| #[trigger] dirs2.dom().contains(x) implies {
        &&& plain_byte_parts(x)
        &&& dir_block_ok(p, img, dirs2[x].0, dirs2[x].1, dirs2[x].2)
        &&& (x.len() > 0 ==> reserved_blocks(p) <= dirs2[x].0 < front)
    } by {
        if x != key {
            assert(dirs.dom().contains(x));
            assert(dirs2[x] == dirs[x]);
        }
    }
    assert forall|x: Seq<Seq<u8>>| #[trigger] dirs2.dom().contains(x) && x.len() > 0 implies {
        &&& dirs2.dom().contains(x.drop_last())
        &&& exists|j: int|
            0 <= j < dirs2[x.drop_last()].1.len() && #[trigger] dirs2[x.drop_last()].1[j] == x.last()
                && dirs2[x.drop_last()].2[j] == dir_item(x.last(), dirs2[x].0)
    } by {
        if x == key {
            assert(dirs2[c] == dirs[c]);
            let j = choose|j: int|
                0 <= j < dirs[c].1.len() && #[trigger] dirs[c].1[j] == name && dirs[c].2[j] == dir_item(name, g);
            assert(dirs2[x.drop_last()].1[j] == x.last());
        } else {
            assert(dirs.dom().contains(x));
            let px = x.drop_last();
            assert(dirs.dom().contains(px));
            assert(px != key);
            assert(dirs2[px] == dirs[px]);
            assert(dirs2[x] == dirs[x]);
            let j = choose|j: int|
                0 <= j < dirs[px].1.len() && #[trigger] dirs[px].1[j] == x.last() && dirs[px].2[j] == dir_item(
                    x.last(),
                    dirs[x].0,
                );
            assert(dirs2[px].1[j] == x.last());
        }
    }
    assert forall|c1: Seq<Seq<u8>>, c2: Seq<Seq<u8>>|
        #[trigger] dirs2.dom().contains(c1) && #[trigger] dirs2.dom().contains(c2) && c1 != c2 implies dirs2[c1].0
        != dirs2[c2].0 by {
        if c1 == key {
            assert(dirs.dom().contains(c2));
        } else if c2 == key {
            assert(dirs.dom().contains(c1));
        } else {
            assert(dirs.dom().contains(c1) && dirs.dom().contains(c2));
        }
    }
    assert(dirs_ok(p, img, dirs2, front));
    assert forall|x: Seq<Seq<u8>>, q: int|
        #[trigger] dirs2.dom().contains(x) && 0 <= q < files.len() implies !(files[q].0 <= dirs2[x].0 < files[q].0
        + blocks_for(#[trigger] files[q].1.len() as int, p.block_size as int)) by {
        if x != key {
            assert(dirs.dom().contains(x));
        } else {
            assert(files[q].0 + blocks_for(files[q].1.len() as int, bs) <= g);
        }
    }
    assert(files_ok(p, img, dirs2, files, front));
}

/// The item of a file named `name` whose contents, `len` bytes, start at
/// block `b`.
pub open spec fn file_item(name: Seq<u8>, b: int, len: int) -> DirEntryView {
    DirEntryView { name: name_field(name), attr: ATTR_FILE, start_block: b as u64, length: len as u64 }
}

/// Adding the file `root/c/name` while a tree is copied in, for a
/// directory `c` made so far with a free slot and no item named `name`,
/// stores its contents from `front` on and names it in `c`.
pub proof fn lemma_tree_add_file(
    p: TianMuParams,
    img: Seq<u8>,
    len0: int,
    dirs: Map<Seq<Seq<u8>>, (int, Seq<Seq<u8>>, Seq<DirEntryView>)>,
    files: Seq<(int, Seq<u8>)>,
    front: int,
    root: Seq<u8>,
    c: Seq<Seq<u8>>,
    name: Seq<u8>,
    data: Seq<u8>,
)
    requires
        tree_state_ok(p, img, len0, dirs, files, front),
        dirs.dom().contains(c),
        dirs[c].1.len() < slots_per_block(p),
        plain_part(name),
        1 <= name.len() <= 15,
        forall|j: int| 0 <= j < dirs[c].1.len() ==> #[trigger] dirs[c].1[j] != name,
        data.len() > 0,
        data.len() + p.block_size <= usize::MAX,
        front + blocks_for(data.len() as int, p.block_size as int) <= p.block_num,
    ensures
        spec_add_file_bytes(p, root, root + (join_parts(c) + seq![SLASH] + name), data, img) is Ok,
        tree_state_ok(
            p,
            spec_add_file_bytes(p, root, root + (join_parts(c) + seq![SLASH] + name), data, img)->Ok_0,
            len0,
            dirs.insert(
                c,
                (dirs[c].0, dirs[c].1.push(name), dirs[c].2.push(file_item(name, front, data.len() as int))),
            ),
            files.push((front, data)),
            front + blocks_for(data.len() as int, p.block_size as int),
        ),
{
    let bs = p.block_size as int;
    let num = blocks_for(data.len() as int, bs);
    let files2 = files.push((front, data));
    let path = root + (join_parts(c) + seq![SLASH] + name);
    lemma_tree_store(p, img, len0, dirs, files, front, data);
    let stored = spec_store(p, img, data)->Ok_0.1;
    lemma_nested_path(root, c, name);
    lemma_find_state(p, stored, len0, dirs, files2, front + num, c, name);
    let d = dirs[c].0;
    assert((d * bs) / bs == d) by (nonlinear_arith)
        requires
            bs > 0,
    ;
    let item = file_item(name, front, data.len() as int);
    assert(spec_add_file_bytes(p, root, path, data, img) == spec_add_dir_item(p, stored, d as usize, item));
    lemma_tree_add_item(p, stored, len0, dirs, files2, front + num, c, name, item);
}

/// Adding the directory `root/c/name` while a tree is copied in, for a
/// directory `c` made so far with a free slot and no item named `name`,
/// takes block `front` for it, names it in `c`, and makes it a directory
/// of the state.
#[verifier::spinoff_prover]
pub proof fn lemma_tree_add_dir(
    p: TianMuParams,
    img: Seq<u8>,
    len0: int,
    dirs: Map<Seq<Seq<u8>>, (int, Seq<Seq<u8>>, Seq<DirEntryView>)>,
    files: Seq<(int, Seq<u8>)>,
    front: int,
    root: Seq<u8>,
    c: Seq<Seq<u8>>,
    name: Seq<u8>,
)
    requires
        tree_state_ok(p, img, len0, dirs, files, front),
        dirs.dom().contains(c),
        dirs[c].1.len() < slots_per_block(p),
        plain_part(name),
        1 <= name.len() <= 15,
        forall|j: int| 0 <= j < dirs[c].1.len() ==> #[trigger] dirs[c].1[j] != name,
        front < p.block_num,
    ensures
        spec_add_directory_bytes(p, root, root + (join_parts(c) + seq![SLASH] + name), img) is Ok,
        tree_state_ok(
            p,
            spec_add_directory_bytes(p, root, root + (join_parts(c) + seq![SLASH] + name), img)->Ok_0,
            len0,
            dirs.insert(c, (dirs[c].0, dirs[c].1.push(name), dirs[c].2.push(dir_item(name, front)))).insert(
                c.push(name),
                (front, Seq::<Seq<u8>>::empty(), Seq::<DirEntryView>::empty()),
            ),
            files,
            front + 1,
        ),
{
    let bs = p.block_size as int;
    let a = p.block_map_addr as int;
    let path = root + (join_parts(c) + seq![SLASH] + name);
    lemma_nested_path(root, c, name);
    lemma_find_state(p, img, len0, dirs, files, front, c, name);
    let d = dirs[c].0;
    assert((d * bs) / bs == d) by (nonlinear_arith)
        requires
            bs > 0,
    ;
    lemma_tree_fill(p, img, len0, dirs, files, front);
    let bl = seq![front as usize];
    let filled = spec_fill(p, img, bl);
    let item = dir_item(name, front);
    assert(spec_add_directory_bytes(p, root, path, img) == spec_add_dir_item(p, filled, d as usize, item));
    lemma_tree_add_item(p, filled, len0, dirs, files, front + 1, c, name, item);
    let k = dirs[c].1.len() as int;
    let t = d * bs + 32 * k;
    let img3 = write_at(filled, t, encode_entry(item));
    let dirs2 = dirs.insert(c, (d, dirs[c].1.push(name), dirs[c].2.push(item)));
    lemma_decode_encode(item);
    // The new block's entry and bytes are untouched by the item's write.
    lemma_root_past_map(p);
    let rb = root_block(p) as int;
    assert(reserved_blocks(p) == rb + 1);
    lemma_dir_block_past_map(p, d as usize);
    assert(d < front) by {
        if c.len() == 0 {
            assert(c =~= Seq::<Seq<u8>>::empty());
        }
    }
    assert(d * bs + bs <= front * bs) by (nonlinear_arith)
        requires
            d < front,
            bs > 0,
    ;
    assert(rb * bs <= d * bs) by (nonlinear_arith)
        requires
            rb <= d,
            bs > 0,
    ;
    assert(img3.subrange(a + 8 * front, a + 8 * front + 8) =~= filled.subrange(a + 8 * front, a + 8 * front + 8));
    assert((front + 1) * bs <= p.block_num * bs) by (nonlinear_arith)
        requires
            front + 1 <= p.block_num,
            bs > 0,
    ;
    assert(front * bs + bs == (front + 1) * bs) by (nonlinear_arith);
    assert(filled.len() == len0);
    assert forall|i: int| front * bs <= i < front * bs + bs implies #[trigger] img3[i] == 0 by {
        assert(filled[i] == 0);
    }
    // `c/name` is not yet a directory: its name would be in `c`.
    if dirs2.dom().contains(c.push(name)) {
        assert(dirs.dom().contains(c.push(name)));
        assert(c.push(name).drop_last() =~= c);
        assert(c.push(name).last() == name);
        let j = choose|j: int|
            0 <= j < dirs[c.push(name).drop_last()].1.len() && #[trigger] dirs[c.push(name).drop_last()].1[j]
                == c.push(name).last() && dirs[c.push(name).drop_last()].2[j] == dir_item(
                c.push(name).last(),
                dirs[c.push(name)].0,
            );
        assert(dirs[c].1[j] == name);
        assert(false);
    }
    assert(dirs2[c].1[k] == name && dirs2[c].2[k] == dir_item(name, front));
    assert forall|x: Seq<Seq<u8>>| #[trigger] dirs2.dom().contains(x) implies dirs2[x].0 != front by {
        assert(dirs.dom().contains(x));
        if x.len() == 0 {
            assert(x =~= Seq::<Seq<u8>>::empty());
        }
    }
    assert forall|q: int| 0 <= q < files.len() implies files[q].0 + blocks_for(
        #[trigger] files[q].1.len() as int,
        p.block_size as int,
    ) <= front by {
        assert(stored_from(p, img, files[q].0, files[q].1));
    }
    lemma_tree_new_dir(p, img3, len0, dirs2, files, front + 1, c, name, front);
}

} // verus!
