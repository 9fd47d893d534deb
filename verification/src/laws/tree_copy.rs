//! The law of making an image from a tree of files and directories:
//! every file of the tree is found by its path, and its contents read back.
use vstd::prelude::*;
use vstd::utf8::encode_utf8;
use crate::tianmu::{TianMuParams, params_ok, slots_per_block, blocks_for, spec_find_dir_addr,
    spec_get_dir_item};
use crate::entry::DirEntryView;
use crate::path::SLASH;
use crate::require::{MakeError, MakeSystem};
use crate::maker::{SourceDir, spec_add_files, spec_trace, spec_trace_dirs};
use crate::tianmu::{TianMu, spec_add_file_bytes, spec_add_directory_bytes, spec_init,
    spec_super_block, reserved_blocks, root_block};
use crate::maker::spec_make;
use crate::laws::making::lemma_made_start;
use crate::laws::tree::{map_ok, dirs_ok, files_ok};
use crate::image::u64_at;
use crate::tianmu::END;
use crate::laws::tree::{lemma_tree_add_file, lemma_tree_add_dir, dir_item};
use crate::laws::making::lemma_blocks_before_mono;
use crate::laws::making::{flat_file, part_after, blocks_before, stored_from};
use crate::laws::names::{plain_chars, lemma_encode_concat, lemma_path_bytes,
    lemma_encode_injective, lemma_plain_chars_bytes};
use crate::laws::tree::{join_chars, join_parts, parts_bytes, plain_parts, tree_state_ok, file_item,
    lemma_find_state, lemma_lookup_in_dir, dir_block_ok, lemma_join_bytes};
use crate::laws::names::plain_part;
use crate::laws::making::slot_of;
use crate::entry::encode_entry;

verus! {

/// A directory of the tree directly under the directory at `dpath`, with a
/// plain name of one to fifteen characters.
pub open spec fn dir_child_ok(dpath: Seq<char>, sub: SourceDir) -> bool {
    &&& sub.path@.len() > dpath.len()
    &&& sub.path@ == dpath + seq!['/'] + part_after(dpath, sub.path@)
    &&& plain_chars(part_after(dpath, sub.path@))
    &&& 1 <= part_after(dpath, sub.path@).len() <= 15
}

/// The names of a directory's files, then of its directories.
pub open spec fn child_parts(dir: SourceDir) -> Seq<Seq<char>> {
    Seq::new(dir.files@.len(), |i: int| part_after(dir.path@, dir.files@[i].path@)) + Seq::new(
        dir.dirs@.len(),
        |k: int| part_after(dir.path@, dir.dirs@[k].path@),
    )
}

/// No two names are the same.
pub open spec fn distinct_parts(cs: Seq<Seq<char>>) -> bool {
    forall|i: int, j: int| 0 <= i < j < cs.len() ==> cs[i] != cs[j]
}

/// A tree that the image maker can copy in full: the directory at path
/// parts `cc` under the root holds files and directories named by plain
/// names of one to fifteen characters, all different, no more than one
/// block of the format holds items, files that are not empty; and so does
/// each of its directories.
pub open spec fn wf_tree(p: TianMuParams, root: Seq<char>, dir: SourceDir, cc: Seq<Seq<char>>) -> bool
    decreases dir, dir.dirs@.len() + 1,
{
    &&& dir.path@ == root + join_chars(cc)
    &&& plain_parts(cc)
    &&& dir.files@.len() + dir.dirs@.len() <= slots_per_block(p)
    &&& forall|i: int| 0 <= i < dir.files@.len() ==> flat_file(p, dir.path@, #[trigger] dir.files@[i])
    &&& forall|k: int| 0 <= k < dir.dirs@.len() ==> dir_child_ok(dir.path@, #[trigger] dir.dirs@[k])
    &&& distinct_parts(child_parts(dir))
    &&& wf_dirs(p, root, dir, cc, 0)
}

/// The directories of `dir` from the `k`-th on are trees the image maker
/// can copy in full.
pub open spec fn wf_dirs(p: TianMuParams, root: Seq<char>, dir: SourceDir, cc: Seq<Seq<char>>, k: int) -> bool
    decreases dir, dir.dirs@.len() - k,
{
    if k < 0 || k >= dir.dirs@.len() {
        true
    } else {
        let d = dir.dirs@[k];
        &&& wf_tree(p, root, d, cc.push(part_after(dir.path@, d.path@)))
        &&& wf_dirs(p, root, dir, cc, k + 1)
    }
}

/// The blocks that copying the tree `dir` takes: its files' contents, and
/// a block and what it holds for each of its directories.
pub open spec fn tree_blocks(p: TianMuParams, dir: SourceDir) -> int
    decreases dir, dir.dirs@.len() + 1,
{
    blocks_before(p, dir.files@, dir.files@.len() as int) + dirs_blocks(p, dir, 0)
}

/// The blocks that copying the directories of `dir` from the `k`-th on
/// takes.
pub open spec fn dirs_blocks(p: TianMuParams, dir: SourceDir, k: int) -> int
    decreases dir, dir.dirs@.len() - k,
{
    if k < 0 || k >= dir.dirs@.len() {
        0
    } else {
        1 + tree_blocks(p, dir.dirs@[k]) + dirs_blocks(p, dir, k + 1)
    }
}

/// The file named `name` with contents `content` is recorded in the
/// directory `c` of the state, with its contents stored.
pub open spec fn file_recorded(
    dirs: Map<Seq<Seq<u8>>, (int, Seq<Seq<u8>>, Seq<DirEntryView>)>,
    files: Seq<(int, Seq<u8>)>,
    c: Seq<Seq<u8>>,
    name: Seq<u8>,
    content: Seq<u8>,
) -> bool {
    &&& dirs.dom().contains(c)
    &&& exists|j: int, q: int|
        0 <= j < dirs[c].1.len() && j < dirs[c].2.len() && 0 <= q < files.len() && #[trigger] dirs[c].1[j] == name
            && #[trigger] files[q] == (files[q].0, content) && dirs[c].2[j] == file_item(
            name,
            files[q].0,
            content.len() as int,
        )
}

/// Every file of the tree `dir` at path parts `cc` is recorded in the
/// state.
pub open spec fn tree_recorded(
    p: TianMuParams,
    root: Seq<char>,
    dir: SourceDir,
    cc: Seq<Seq<char>>,
    dirs: Map<Seq<Seq<u8>>, (int, Seq<Seq<u8>>, Seq<DirEntryView>)>,
    files: Seq<(int, Seq<u8>)>,
) -> bool
    decreases dir, dir.dirs@.len() + 1,
{
    &&& forall|i: int|
        0 <= i < dir.files@.len() ==> file_recorded(
            dirs,
            files,
            parts_bytes(cc),
            encode_utf8(part_after(dir.path@, #[trigger] dir.files@[i].path@)),
            dir.files@[i].content@,
        )
    &&& dirs_recorded(p, root, dir, cc, dirs, files, 0)
}

/// Every file under the directories of `dir` from the `k`-th on is
/// recorded in the state.
pub open spec fn dirs_recorded(
    p: TianMuParams,
    root: Seq<char>,
    dir: SourceDir,
    cc: Seq<Seq<char>>,
    dirs: Map<Seq<Seq<u8>>, (int, Seq<Seq<u8>>, Seq<DirEntryView>)>,
    files: Seq<(int, Seq<u8>)>,
    k: int,
) -> bool
    decreases dir, dir.dirs@.len() - k,
{
    if k < 0 || k >= dir.dirs@.len() {
        true
    } else {
        let d = dir.dirs@[k];
        &&& tree_recorded(p, root, d, cc.push(part_after(dir.path@, d.path@)), dirs, files)
        &&& dirs_recorded(p, root, dir, cc, dirs, files, k + 1)
    }
}

/// The file at path parts `c` and name `name` is found in the image: the
/// directory that holds it is found from its path, the directory holds an
/// item of that name for a file of the contents' length, and the contents
/// read back from the item's first block.
pub open spec fn file_found(p: TianMuParams, img: Seq<u8>, c: Seq<Seq<u8>>, name: Seq<u8>, content: Seq<u8>) -> bool {
    exists|d: usize, s: int|
        #![trigger spec_get_dir_item(p, img, d, name), stored_from(p, img, s, content)]
        spec_find_dir_addr(p, img, join_parts(c) + seq![SLASH] + name) == Ok::<usize, MakeError>(
            (d * p.block_size) as usize,
        ) && spec_get_dir_item(p, img, d, name) == Ok::<Option<DirEntryView>, MakeError>(
            Some(file_item(name, s, content.len() as int)),
        ) && stored_from(p, img, s, content)
}

/// Every file of the tree `dir` at path parts `cc` is found in the image.
pub open spec fn tree_found(p: TianMuParams, root: Seq<char>, dir: SourceDir, cc: Seq<Seq<char>>, img: Seq<u8>) -> bool
    decreases dir, dir.dirs@.len() + 1,
{
    &&& forall|i: int|
        0 <= i < dir.files@.len() ==> file_found(
            p,
            img,
            parts_bytes(cc),
            encode_utf8(part_after(dir.path@, #[trigger] dir.files@[i].path@)),
            dir.files@[i].content@,
        )
    &&& dirs_found(p, root, dir, cc, img, 0)
}

/// Every file under the directories of `dir` from the `k`-th on is found
/// in the image.
pub open spec fn dirs_found(
    p: TianMuParams,
    root: Seq<char>,
    dir: SourceDir,
    cc: Seq<Seq<char>>,
    img: Seq<u8>,
    k: int,
) -> bool
    decreases dir, dir.dirs@.len() - k,
{
    if k < 0 || k >= dir.dirs@.len() {
        true
    } else {
        let d = dir.dirs@[k];
        &&& tree_found(p, root, d, cc.push(part_after(dir.path@, d.path@)), img)
        &&& dirs_found(p, root, dir, cc, img, k + 1)
    }
}

/// `a` is a prefix of `b`.
pub open spec fn prefix_of<A>(a: Seq<A>, b: Seq<A>) -> bool {
    a.len() <= b.len() && forall|i: int| 0 <= i < a.len() ==> #[trigger] a[i] == b[i]
}

/// The second state extends the first: every directory stays, with its
/// block, and its items only grow; the stored files only grow.
pub open spec fn grows(
    dirs1: Map<Seq<Seq<u8>>, (int, Seq<Seq<u8>>, Seq<DirEntryView>)>,
    files1: Seq<(int, Seq<u8>)>,
    dirs2: Map<Seq<Seq<u8>>, (int, Seq<Seq<u8>>, Seq<DirEntryView>)>,
    files2: Seq<(int, Seq<u8>)>,
) -> bool {
    &&& forall|c: Seq<Seq<u8>>|
        #[trigger] dirs1.dom().contains(c) ==> {
            &&& dirs2.dom().contains(c)
            &&& dirs2[c].0 == dirs1[c].0
            &&& prefix_of(dirs1[c].1, dirs2[c].1)
            &&& prefix_of(dirs1[c].2, dirs2[c].2)
        }
    &&& prefix_of(files1, files2)
}

/// A recorded file stays recorded as the state grows.
pub proof fn lemma_file_recorded_grows(
    dirs1: Map<Seq<Seq<u8>>, (int, Seq<Seq<u8>>, Seq<DirEntryView>)>,
    files1: Seq<(int, Seq<u8>)>,
    dirs2: Map<Seq<Seq<u8>>, (int, Seq<Seq<u8>>, Seq<DirEntryView>)>,
    files2: Seq<(int, Seq<u8>)>,
    c: Seq<Seq<u8>>,
    name: Seq<u8>,
    content: Seq<u8>,
)
    requires
        file_recorded(dirs1, files1, c, name, content),
        grows(dirs1, files1, dirs2, files2),
    ensures
        file_recorded(dirs2, files2, c, name, content),
{
    let (j, q) = choose|j: int, q: int|
        0 <= j < dirs1[c].1.len() && j < dirs1[c].2.len() && 0 <= q < files1.len() && #[trigger] dirs1[c].1[j]
            == name && #[trigger] files1[q] == (files1[q].0, content) && dirs1[c].2[j] == file_item(
            name,
            files1[q].0,
            content.len() as int,
        );
    assert(dirs2[c].1[j] == dirs1[c].1[j]);
    assert(dirs2[c].2[j] == dirs1[c].2[j]);
    assert(files2[q] == files1[q]);
}

/// Every file of a recorded tree stays recorded as the state grows.
pub proof fn lemma_tree_recorded_grows(
    p: TianMuParams,
    root: Seq<char>,
    dir: SourceDir,
    cc: Seq<Seq<char>>,
    dirs1: Map<Seq<Seq<u8>>, (int, Seq<Seq<u8>>, Seq<DirEntryView>)>,
    files1: Seq<(int, Seq<u8>)>,
    dirs2: Map<Seq<Seq<u8>>, (int, Seq<Seq<u8>>, Seq<DirEntryView>)>,
    files2: Seq<(int, Seq<u8>)>,
)
    requires
        tree_recorded(p, root, dir, cc, dirs1, files1),
        grows(dirs1, files1, dirs2, files2),
    ensures
        tree_recorded(p, root, dir, cc, dirs2, files2),
    decreases dir, dir.dirs@.len() + 1,
{
    assert forall|i: int| 0 <= i < dir.files@.len() implies file_recorded(
        dirs2,
        files2,
        parts_bytes(cc),
        encode_utf8(part_after(dir.path@, #[trigger] dir.files@[i].path@)),
        dir.files@[i].content@,
    ) by {
        lemma_file_recorded_grows(
            dirs1,
            files1,
            dirs2,
            files2,
            parts_bytes(cc),
            encode_utf8(part_after(dir.path@, dir.files@[i].path@)),
            dir.files@[i].content@,
        );
    }
    lemma_dirs_recorded_grows(p, root, dir, cc, dirs1, files1, dirs2, files2, 0);
}

/// Every file under the directories of a recorded tree, from the `k`-th
/// on, stays recorded as the state grows.
pub proof fn lemma_dirs_recorded_grows(
    p: TianMuParams,
    root: Seq<char>,
    dir: SourceDir,
    cc: Seq<Seq<char>>,
    dirs1: Map<Seq<Seq<u8>>, (int, Seq<Seq<u8>>, Seq<DirEntryView>)>,
    files1: Seq<(int, Seq<u8>)>,
    dirs2: Map<Seq<Seq<u8>>, (int, Seq<Seq<u8>>, Seq<DirEntryView>)>,
    files2: Seq<(int, Seq<u8>)>,
    k: int,
)
    requires
        dirs_recorded(p, root, dir, cc, dirs1, files1, k),
        grows(dirs1, files1, dirs2, files2),
    ensures
        dirs_recorded(p, root, dir, cc, dirs2, files2, k),
    decreases dir, dir.dirs@.len() - k,
{
    if 0 <= k < dir.dirs@.len() {
        let d = dir.dirs@[k];
        lemma_tree_recorded_grows(
            p,
            root,
            d,
            cc.push(part_after(dir.path@, d.path@)),
            dirs1,
            files1,
            dirs2,
            files2,
        );
        lemma_dirs_recorded_grows(p, root, dir, cc, dirs1, files1, dirs2, files2, k + 1);
    }
}

/// A recorded file is found in the image.
pub proof fn lemma_recorded_found(
    p: TianMuParams,
    img: Seq<u8>,
    len0: int,
    dirs: Map<Seq<Seq<u8>>, (int, Seq<Seq<u8>>, Seq<DirEntryView>)>,
    files: Seq<(int, Seq<u8>)>,
    front: int,
    c: Seq<Seq<u8>>,
    name: Seq<u8>,
    content: Seq<u8>,
)
    requires
        tree_state_ok(p, img, len0, dirs, files, front),
        file_recorded(dirs, files, c, name, content),
    ensures
        file_found(p, img, c, name, content),
{
    let (j, q) = choose|j: int, q: int|
        0 <= j < dirs[c].1.len() && j < dirs[c].2.len() && 0 <= q < files.len() && #[trigger] dirs[c].1[j] == name
            && #[trigger] files[q] == (files[q].0, content) && dirs[c].2[j] == file_item(
            name,
            files[q].0,
            content.len() as int,
        );
    let d = dirs[c].0;
    assert(dir_block_ok(p, img, d, dirs[c].1, dirs[c].2));
    assert(slot_of(img, d * p.block_size, j) == encode_entry(dirs[c].2[j]));
    assert(plain_part(name));
    lemma_find_state(p, img, len0, dirs, files, front, c, name);
    assert((d + 1) * p.block_size <= p.block_num * p.block_size) by (nonlinear_arith)
        requires
            d + 1 <= p.block_num,
            p.block_size > 0,
    ;
    lemma_lookup_in_dir(p, img, d, dirs[c].1, dirs[c].2, j);
    assert(stored_from(p, img, files[q].0, files[q].1));
    let du = d as usize;
    assert(spec_get_dir_item(p, img, du, name) == Ok::<Option<DirEntryView>, MakeError>(
        Some(file_item(name, files[q].0, content.len() as int)),
    ));
    assert(stored_from(p, img, files[q].0, content));
}

/// Every file of a recorded tree is found in the image.
pub proof fn lemma_tree_found(
    p: TianMuParams,
    root: Seq<char>,
    dir: SourceDir,
    cc: Seq<Seq<char>>,
    img: Seq<u8>,
    len0: int,
    dirs: Map<Seq<Seq<u8>>, (int, Seq<Seq<u8>>, Seq<DirEntryView>)>,
    files: Seq<(int, Seq<u8>)>,
    front: int,
)
    requires
        tree_state_ok(p, img, len0, dirs, files, front),
        tree_recorded(p, root, dir, cc, dirs, files),
    ensures
        tree_found(p, root, dir, cc, img),
    decreases dir, dir.dirs@.len() + 1,
{
    assert forall|i: int| 0 <= i < dir.files@.len() implies file_found(
        p,
        img,
        parts_bytes(cc),
        encode_utf8(part_after(dir.path@, #[trigger] dir.files@[i].path@)),
        dir.files@[i].content@,
    ) by {
        lemma_recorded_found(
            p,
            img,
            len0,
            dirs,
            files,
            front,
            parts_bytes(cc),
            encode_utf8(part_after(dir.path@, dir.files@[i].path@)),
            dir.files@[i].content@,
        );
    }
    lemma_dirs_found(p, root, dir, cc, img, len0, dirs, files, front, 0);
}

/// Every file under the directories of a recorded tree, from the `k`-th
/// on, is found in the image.
pub proof fn lemma_dirs_found(
    p: TianMuParams,
    root: Seq<char>,
    dir: SourceDir,
    cc: Seq<Seq<char>>,
    img: Seq<u8>,
    len0: int,
    dirs: Map<Seq<Seq<u8>>, (int, Seq<Seq<u8>>, Seq<DirEntryView>)>,
    files: Seq<(int, Seq<u8>)>,
    front: int,
    k: int,
)
    requires
        tree_state_ok(p, img, len0, dirs, files, front),
        dirs_recorded(p, root, dir, cc, dirs, files, k),
    ensures
        dirs_found(p, root, dir, cc, img, k),
    decreases dir, dir.dirs@.len() - k,
{
    if 0 <= k < dir.dirs@.len() {
        let d = dir.dirs@[k];
        lemma_tree_found(p, root, d, cc.push(part_after(dir.path@, d.path@)), img, len0, dirs, files, front);
        lemma_dirs_found(p, root, dir, cc, img, len0, dirs, files, front, k + 1);
    }
}

/// Growing is transitive.
pub proof fn lemma_grows_trans(
    dirs1: Map<Seq<Seq<u8>>, (int, Seq<Seq<u8>>, Seq<DirEntryView>)>,
    files1: Seq<(int, Seq<u8>)>,
    dirs2: Map<Seq<Seq<u8>>, (int, Seq<Seq<u8>>, Seq<DirEntryView>)>,
    files2: Seq<(int, Seq<u8>)>,
    dirs3: Map<Seq<Seq<u8>>, (int, Seq<Seq<u8>>, Seq<DirEntryView>)>,
    files3: Seq<(int, Seq<u8>)>,
)
    requires
        grows(dirs1, files1, dirs2, files2),
        grows(dirs2, files2, dirs3, files3),
    ensures
        grows(dirs1, files1, dirs3, files3),
{
    assert forall|c: Seq<Seq<u8>>| #[trigger] dirs1.dom().contains(c) implies {
        &&& dirs3.dom().contains(c)
        &&& dirs3[c].0 == dirs1[c].0
        &&& prefix_of(dirs1[c].1, dirs3[c].1)
        &&& prefix_of(dirs1[c].2, dirs3[c].2)
    } by {
        assert(dirs2.dom().contains(c));
        assert forall|i: int| 0 <= i < dirs1[c].1.len() implies #[trigger] dirs1[c].1[i] == dirs3[c].1[i] by {
            assert(dirs1[c].1[i] == dirs2[c].1[i]);
        }
        assert forall|i: int| 0 <= i < dirs1[c].2.len() implies #[trigger] dirs1[c].2[i] == dirs3[c].2[i] by {
            assert(dirs1[c].2[i] == dirs2[c].2[i]);
        }
    }
    assert forall|i: int| 0 <= i < files1.len() implies #[trigger] files1[i] == files3[i] by {
        assert(files1[i] == files2[i]);
    }
}

/// The bytes of the path of a child `part` of the directory at path
/// parts `cc` under `root`.
pub proof fn lemma_child_path_bytes(root: Seq<char>, cc: Seq<Seq<char>>, part: Seq<char>)
    ensures
        encode_utf8(root + join_chars(cc) + seq!['/'] + part) == encode_utf8(root) + (join_parts(parts_bytes(cc))
            + seq![SLASH] + encode_utf8(part)),
{
    lemma_path_bytes(root + join_chars(cc), part);
    lemma_encode_concat(root, join_chars(cc));
    lemma_join_bytes(cc);
    assert(encode_utf8(root) + join_parts(parts_bytes(cc)) + seq![SLASH] + encode_utf8(part) =~= encode_utf8(root)
        + (join_parts(parts_bytes(cc)) + seq![SLASH] + encode_utf8(part)));
}

/// The bytes of path parts with one more part.
pub proof fn lemma_parts_bytes_push(cc: Seq<Seq<char>>, x: Seq<char>)
    ensures
        parts_bytes(cc.push(x)) == parts_bytes(cc).push(encode_utf8(x)),
{
    assert(parts_bytes(cc.push(x)) =~= parts_bytes(cc).push(encode_utf8(x)));
}

/// The names, as bytes, of the first `m` children of `dir` (its files,
/// then its directories).
pub open spec fn names_prefix(dir: SourceDir, m: int) -> Seq<Seq<u8>> {
    Seq::new(m as nat, |i: int| encode_utf8(child_parts(dir)[i]))
}

/// The name of child `m` is not among the names of the children before
/// it, and the names of the first `m + 1` children are those of the first
/// `m` and its own.
pub proof fn lemma_child_name_fresh(dir: SourceDir, m: int)
    requires
        distinct_parts(child_parts(dir)),
        0 <= m < child_parts(dir).len(),
    ensures
        forall|j: int| 0 <= j < m ==> #[trigger] names_prefix(dir, m)[j] != encode_utf8(child_parts(dir)[m]),
        names_prefix(dir, m + 1) == names_prefix(dir, m).push(encode_utf8(child_parts(dir)[m])),
{
    assert forall|j: int| 0 <= j < m implies #[trigger] names_prefix(dir, m)[j] != encode_utf8(child_parts(dir)[m]) by {
        if encode_utf8(child_parts(dir)[j]) == encode_utf8(child_parts(dir)[m]) {
            lemma_encode_injective(child_parts(dir)[j], child_parts(dir)[m]);
        }
    }
    assert(names_prefix(dir, m + 1) =~= names_prefix(dir, m).push(encode_utf8(child_parts(dir)[m])));
}

/// The blocks that copying a tree takes are never negative in number.
pub proof fn lemma_tree_blocks_nonneg(p: TianMuParams, dir: SourceDir)
    requires
        p.block_size > 0,
    ensures
        tree_blocks(p, dir) >= 0,
    decreases dir, dir.dirs@.len() + 1,
{
    crate::laws::making::lemma_blocks_before_nonneg(p, dir.files@, dir.files@.len() as int);
    lemma_dirs_blocks_nonneg(p, dir, 0);
}

/// The blocks that copying the directories of a tree, from the `k`-th on,
/// takes are never negative in number.
pub proof fn lemma_dirs_blocks_nonneg(p: TianMuParams, dir: SourceDir, k: int)
    requires
        p.block_size > 0,
    ensures
        dirs_blocks(p, dir, k) >= 0,
    decreases dir, dir.dirs@.len() - k,
{
    if 0 <= k < dir.dirs@.len() {
        lemma_tree_blocks_nonneg(p, dir.dirs@[k]);
        lemma_dirs_blocks_nonneg(p, dir, k + 1);
    }
}

/// A state grows into itself.
pub proof fn lemma_grows_refl(
    dirs: Map<Seq<Seq<u8>>, (int, Seq<Seq<u8>>, Seq<DirEntryView>)>,
    files: Seq<(int, Seq<u8>)>,
)
    ensures
        grows(dirs, files, dirs, files),
{
}

/// The name of file `i` of `dir`, as bytes.
pub open spec fn file_name_of(dir: SourceDir, i: int) -> Seq<u8> {
    encode_utf8(part_after(dir.path@, dir.files@[i].path@))
}

/// Copying the files of the directory `dir` at path parts `cc`, from the
/// `i`-th on, records each of them in the directory and stores its
/// contents after the blocks taken so far.
#[verifier::spinoff_prover]
pub proof fn lemma_trace_files(
    format: TianMu,
    root: Seq<char>,
    dir: SourceDir,
    cc: Seq<Seq<char>>,
    i: int,
    img: Seq<u8>,
    len0: int,
    dirs: Map<Seq<Seq<u8>>, (int, Seq<Seq<u8>>, Seq<DirEntryView>)>,
    files: Seq<(int, Seq<u8>)>,
    front: int,
) -> (r: (Map<Seq<Seq<u8>>, (int, Seq<Seq<u8>>, Seq<DirEntryView>)>, Seq<(int, Seq<u8>)>, int))
    requires
        tree_state_ok(format@, img, len0, dirs, files, front),
        dir.path@ == root + join_chars(cc),
        dir.files@.len() + dir.dirs@.len() <= slots_per_block(format@),
        forall|i2: int| 0 <= i2 < dir.files@.len() ==> flat_file(format@, dir.path@, #[trigger] dir.files@[i2]),
        distinct_parts(child_parts(dir)),
        0 <= i <= dir.files@.len(),
        dirs.dom().contains(parts_bytes(cc)),
        dirs[parts_bytes(cc)].1 == names_prefix(dir, i),
        front + blocks_before(format@, dir.files@, dir.files@.len() as int) - blocks_before(format@, dir.files@, i)
            <= format@.block_num,
        forall|i2: int|
            0 <= i2 < i ==> file_recorded(
                dirs,
                files,
                parts_bytes(cc),
                #[trigger] file_name_of(dir, i2),
                dir.files@[i2].content@,
            ),
    ensures
        spec_add_files(format, root, dir.files@.subrange(i, dir.files@.len() as int), img) is Ok,
        tree_state_ok(
            format@,
            spec_add_files(format, root, dir.files@.subrange(i, dir.files@.len() as int), img)->Ok_0,
            len0,
            r.0,
            r.1,
            r.2,
        ),
        r.2 == front + blocks_before(format@, dir.files@, dir.files@.len() as int) - blocks_before(
            format@,
            dir.files@,
            i,
        ),
        r.0.dom().contains(parts_bytes(cc)),
        r.0[parts_bytes(cc)].1 == names_prefix(dir, dir.files@.len() as int),
        grows(dirs, files, r.0, r.1),
        forall|x: Seq<Seq<u8>>|
            #[trigger] dirs.dom().contains(x) && x != parts_bytes(cc) ==> r.0.dom().contains(x) && r.0[x] == dirs[x],
        forall|i2: int|
            0 <= i2 < dir.files@.len() ==> file_recorded(
                r.0,
                r.1,
                parts_bytes(cc),
                #[trigger] file_name_of(dir, i2),
                dir.files@[i2].content@,
            ),
    decreases dir.files@.len() - i,
{
    let p = format@;
    let nf = dir.files@.len() as int;
    let c = parts_bytes(cc);
    let rest = dir.files@.subrange(i, nf);
    if i == nf {
        assert(rest.len() == 0);
        lemma_grows_refl(dirs, files);
        (dirs, files, front)
    } else {
        let f = dir.files@[i];
        let part = part_after(dir.path@, f.path@);
        let nb = encode_utf8(part);
        let data = f.content@;
        assert(flat_file(p, dir.path@, f));
        lemma_plain_chars_bytes(part);
        lemma_child_path_bytes(root, cc, part);
        assert(child_parts(dir)[i] == part);
        lemma_child_name_fresh(dir, i);
        assert(nb == file_name_of(dir, i));
        crate::laws::making::lemma_blocks_before_mono(p, dir.files@, i, i + 1);
        lemma_blocks_before_mono(p, dir.files@, i + 1, nf);
        let num = blocks_for(data.len() as int, p.block_size as int);
        assert(blocks_before(p, dir.files@, i + 1) == blocks_before(p, dir.files@, i) + num);
        assert(forall|j: int| 0 <= j < dirs[c].1.len() ==> #[trigger] dirs[c].1[j] != nb);
        lemma_tree_add_file(p, img, len0, dirs, files, front, encode_utf8(root), c, nb, data);
        let path_b = encode_utf8(root) + (join_parts(c) + seq![SLASH] + nb);
        assert(encode_utf8(f.path@) == path_b);
        let img1 = spec_add_file_bytes(p, encode_utf8(root), path_b, data, img)->Ok_0;
        let d = dirs[c].0;
        let item = file_item(nb, front, data.len() as int);
        let dirs1 = dirs.insert(c, (d, dirs[c].1.push(nb), dirs[c].2.push(item)));
        let files1 = files.push((front, data));
        // The new file is recorded.
        assert(crate::laws::tree::dir_block_ok(p, img, d, dirs[c].1, dirs[c].2));
        assert(dirs[c].2.len() == i);
        assert(dirs1[c].1[i] == nb);
        assert(dirs1[c].2[i] == item);
        assert(files1[files.len() as int] == (front, data));
        assert(file_recorded(dirs1, files1, c, nb, data));
        // The state grows.
        assert(grows(dirs, files, dirs1, files1)) by {
            assert forall|x: Seq<Seq<u8>>| #[trigger] dirs.dom().contains(x) implies {
                &&& dirs1.dom().contains(x)
                &&& dirs1[x].0 == dirs[x].0
                &&& prefix_of(dirs[x].1, dirs1[x].1)
                &&& prefix_of(dirs[x].2, dirs1[x].2)
            } by {
                if x == c {
                    assert(prefix_of(dirs[x].1, dirs[x].1.push(nb)));
                    assert(prefix_of(dirs[x].2, dirs[x].2.push(item)));
                }
            }
        }
        assert forall|i2: int| 0 <= i2 < i + 1 implies file_recorded(
            dirs1,
            files1,
            c,
            #[trigger] file_name_of(dir, i2),
            dir.files@[i2].content@,
        ) by {
            if i2 < i {
                lemma_file_recorded_grows(dirs, files, dirs1, files1, c, file_name_of(dir, i2), dir.files@[i2].content@);
            }
        }
        assert(rest[0] == f);
        assert(rest.drop_first() =~= dir.files@.subrange(i + 1, nf));
        let r = lemma_trace_files(format, root, dir, cc, i + 1, img1, len0, dirs1, files1, front + num);
        lemma_grows_trans(dirs, files, dirs1, files1, r.0, r.1);
        r
    }
}

/// Prefixes of prefixes are prefixes.
pub proof fn lemma_prefix_trans<A>(a: Seq<A>, b: Seq<A>, x: Seq<A>)
    requires
        prefix_of(a, b),
        prefix_of(b, x),
    ensures
        prefix_of(a, x),
{
    assert forall|i: int| 0 <= i < a.len() implies #[trigger] a[i] == x[i] by {
        assert(a[i] == b[i]);
    }
}

/// Copying the tree `dir` at path parts `cc`, into its directory made so
/// far and still empty, records every file of the tree, takes the blocks
/// the tree needs from `front` on, and changes no directory outside it.
pub proof fn lemma_trace_tree(
    format: TianMu,
    root: Seq<char>,
    dir: SourceDir,
    cc: Seq<Seq<char>>,
    img: Seq<u8>,
    len0: int,
    dirs: Map<Seq<Seq<u8>>, (int, Seq<Seq<u8>>, Seq<DirEntryView>)>,
    files: Seq<(int, Seq<u8>)>,
    front: int,
) -> (r: (Map<Seq<Seq<u8>>, (int, Seq<Seq<u8>>, Seq<DirEntryView>)>, Seq<(int, Seq<u8>)>, int))
    requires
        tree_state_ok(format@, img, len0, dirs, files, front),
        wf_tree(format@, root, dir, cc),
        dirs.dom().contains(parts_bytes(cc)),
        dirs[parts_bytes(cc)].1.len() == 0,
        front + tree_blocks(format@, dir) <= format@.block_num,
    ensures
        spec_trace(format, root, dir, img) is Ok,
        tree_state_ok(format@, spec_trace(format, root, dir, img)->Ok_0, len0, r.0, r.1, r.2),
        r.2 == front + tree_blocks(format@, dir),
        grows(dirs, files, r.0, r.1),
        forall|x: Seq<Seq<u8>>|
            #[trigger] dirs.dom().contains(x) && !prefix_of(parts_bytes(cc), x) ==> r.0.dom().contains(x)
                && r.0[x] == dirs[x],
        tree_recorded(format@, root, dir, cc, r.0, r.1),
    decreases dir, 2 * dir.dirs@.len() + 2,
{
    let p = format@;
    let c = parts_bytes(cc);
    let nf = dir.files@.len() as int;
    assert(names_prefix(dir, 0) =~= dirs[c].1);
    lemma_dirs_blocks_nonneg(p, dir, 0);
    assert(blocks_before(p, dir.files@, 0) == 0);
    let rf = lemma_trace_files(format, root, dir, cc, 0, img, len0, dirs, files, front);
    assert(dir.files@.subrange(0, nf) =~= dir.files@);
    let img_f = spec_add_files(format, root, dir.files@, img)->Ok_0;
    assert(nf + 0 == nf);
    let rd = lemma_trace_dirs(format, root, dir, cc, 0, img_f, len0, rf.0, rf.1, rf.2);
    lemma_grows_trans(dirs, files, rf.0, rf.1, rd.0, rd.1);
    assert forall|i: int| 0 <= i < dir.files@.len() implies file_recorded(
        rd.0,
        rd.1,
        parts_bytes(cc),
        encode_utf8(part_after(dir.path@, #[trigger] dir.files@[i].path@)),
        dir.files@[i].content@,
    ) by {
        assert(file_name_of(dir, i) == encode_utf8(part_after(dir.path@, dir.files@[i].path@)));
        lemma_file_recorded_grows(rf.0, rf.1, rd.0, rd.1, c, file_name_of(dir, i), dir.files@[i].content@);
    }
    assert forall|x: Seq<Seq<u8>>| #[trigger] dirs.dom().contains(x) && !prefix_of(c, x) implies rd.0.dom().contains(x)
        && rd.0[x] == dirs[x] by {
        if x == c {
            assert(prefix_of(c, x));
        }
        assert(rf.0.dom().contains(x));
    }
    rd
}

/// Copying directory `k` of the tree `dir` at path parts `cc`: the
/// directory is added to `dir` and its tree copied into it.
#[verifier::spinoff_prover]
pub proof fn lemma_trace_one_dir(
    format: TianMu,
    root: Seq<char>,
    dir: SourceDir,
    cc: Seq<Seq<char>>,
    k: int,
    img: Seq<u8>,
    len0: int,
    dirs: Map<Seq<Seq<u8>>, (int, Seq<Seq<u8>>, Seq<DirEntryView>)>,
    files: Seq<(int, Seq<u8>)>,
    front: int,
) -> (r: (Map<Seq<Seq<u8>>, (int, Seq<Seq<u8>>, Seq<DirEntryView>)>, Seq<(int, Seq<u8>)>, int))
    requires
        tree_state_ok(format@, img, len0, dirs, files, front),
        dir.path@ == root + join_chars(cc),
        dir.files@.len() + dir.dirs@.len() <= slots_per_block(format@),
        forall|k2: int| 0 <= k2 < dir.dirs@.len() ==> dir_child_ok(dir.path@, #[trigger] dir.dirs@[k2]),
        distinct_parts(child_parts(dir)),
        wf_tree(format@, root, dir.dirs@[k], cc.push(part_after(dir.path@, dir.dirs@[k].path@))),
        0 <= k < dir.dirs@.len(),
        dirs.dom().contains(parts_bytes(cc)),
        dirs[parts_bytes(cc)].1 == names_prefix(dir, dir.files@.len() + k),
        front + 1 + tree_blocks(format@, dir.dirs@[k]) <= format@.block_num,
    ensures
        format.spec_add_directory(root, dir.dirs@[k].path@, img) is Ok,
        spec_trace(format, root, dir.dirs@[k], format.spec_add_directory(root, dir.dirs@[k].path@, img)->Ok_0) is Ok,
        tree_state_ok(
            format@,
            spec_trace(format, root, dir.dirs@[k], format.spec_add_directory(root, dir.dirs@[k].path@, img)->Ok_0)->Ok_0,
            len0,
            r.0,
            r.1,
            r.2,
        ),
        r.2 == front + 1 + tree_blocks(format@, dir.dirs@[k]),
        grows(dirs, files, r.0, r.1),
        forall|x: Seq<Seq<u8>>|
            #[trigger] dirs.dom().contains(x) && !prefix_of(parts_bytes(cc), x) ==> r.0.dom().contains(x)
                && r.0[x] == dirs[x],
        r.0.dom().contains(parts_bytes(cc)),
        r.0[parts_bytes(cc)].1 == names_prefix(dir, dir.files@.len() + k + 1),
        tree_recorded(format@, root, dir.dirs@[k], cc.push(part_after(dir.path@, dir.dirs@[k].path@)), r.0, r.1),
    decreases dir, 2 * (dir.dirs@.len() - k),
{
    let p = format@;
    let c = parts_bytes(cc);
    let nf = dir.files@.len() as int;
    let d = dir.dirs@[k];
    let part = part_after(dir.path@, d.path@);
    let nb = encode_utf8(part);
    let cd = cc.push(part);
    assert(dir_child_ok(dir.path@, d));
    assert(child_parts(dir)[nf + k] == part);
    lemma_child_name_fresh(dir, nf + k);
    lemma_plain_chars_bytes(part);
    lemma_child_path_bytes(root, cc, part);
    lemma_tree_blocks_nonneg(p, d);
    assert(forall|j: int| 0 <= j < dirs[c].1.len() ==> #[trigger] dirs[c].1[j] != nb);
    lemma_tree_add_dir(p, img, len0, dirs, files, front, encode_utf8(root), c, nb);
    let path_b = encode_utf8(root) + (join_parts(c) + seq![SLASH] + nb);
    assert(encode_utf8(d.path@) == path_b);
    let img1 = spec_add_directory_bytes(p, encode_utf8(root), path_b, img)->Ok_0;
    let dc = dirs[c].0;
    let item = dir_item(nb, front);
    let dirs0 = dirs.insert(c, (dc, dirs[c].1.push(nb), dirs[c].2.push(item)));
    let dirs1 = dirs0.insert(c.push(nb), (front, Seq::<Seq<u8>>::empty(), Seq::<DirEntryView>::empty()));
    lemma_parts_bytes_push(cc, part);
    assert(parts_bytes(cd) == c.push(nb));
    let rc = lemma_trace_tree(format, root, d, cd, img1, len0, dirs1, files, front + 1);
    // The directory's own names are untouched by copying the child.
    assert(prefix_of(c, c.push(nb)));
    assert(!prefix_of(c.push(nb), c));
    assert(dirs1.dom().contains(c));
    assert(rc.0[c] == dirs1[c]);
    assert(dirs1[c].1 == names_prefix(dir, nf + k).push(nb));
    // `c/nb` was not a directory: its name would be in `c`.
    assert(!dirs.dom().contains(c.push(nb))) by {
        if dirs.dom().contains(c.push(nb)) {
            let x = c.push(nb);
            assert(x.drop_last() =~= c);
            assert(x.last() == nb);
            assert(x.len() > 0);
            let j = choose|j: int|
                0 <= j < dirs[x.drop_last()].1.len() && #[trigger] dirs[x.drop_last()].1[j] == x.last()
                    && dirs[x.drop_last()].2[j] == dir_item(x.last(), dirs[x].0);
            assert(dirs[c].1[j] == nb);
            assert(false);
        }
    }
    // The state grows.
    assert(grows(dirs, files, dirs1, files)) by {
        assert forall|x: Seq<Seq<u8>>| #[trigger] dirs.dom().contains(x) implies {
            &&& dirs1.dom().contains(x)
            &&& dirs1[x].0 == dirs[x].0
            &&& prefix_of(dirs[x].1, dirs1[x].1)
            &&& prefix_of(dirs[x].2, dirs1[x].2)
        } by {
            if x == c.push(nb) {
                assert(false);
            }
            if x == c {
                assert(prefix_of(dirs[x].1, dirs[x].1.push(nb)));
                assert(prefix_of(dirs[x].2, dirs[x].2.push(item)));
            }
        }
    }
    lemma_grows_trans(dirs, files, dirs1, files, rc.0, rc.1);
    // Directories outside `dir` are untouched.
    assert forall|x: Seq<Seq<u8>>| #[trigger] dirs.dom().contains(x) && !prefix_of(c, x) implies rc.0.dom().contains(x)
        && rc.0[x] == dirs[x] by {
        assert(x != c);
        if x == c.push(nb) {
            assert(prefix_of(c, x));
        }
        assert(dirs1[x] == dirs[x]);
        if prefix_of(c.push(nb), x) {
            lemma_prefix_trans(c, c.push(nb), x);
        }
    }
    rc
}

/// Copying the directories of the tree `dir` at path parts `cc`, from the
/// `k`-th on, records every file under them, takes the blocks they need
/// from `front` on, and changes no directory outside `dir`.
pub proof fn lemma_trace_dirs(
    format: TianMu,
    root: Seq<char>,
    dir: SourceDir,
    cc: Seq<Seq<char>>,
    k: int,
    img: Seq<u8>,
    len0: int,
    dirs: Map<Seq<Seq<u8>>, (int, Seq<Seq<u8>>, Seq<DirEntryView>)>,
    files: Seq<(int, Seq<u8>)>,
    front: int,
) -> (r: (Map<Seq<Seq<u8>>, (int, Seq<Seq<u8>>, Seq<DirEntryView>)>, Seq<(int, Seq<u8>)>, int))
    requires
        tree_state_ok(format@, img, len0, dirs, files, front),
        dir.path@ == root + join_chars(cc),
        dir.files@.len() + dir.dirs@.len() <= slots_per_block(format@),
        forall|k2: int| 0 <= k2 < dir.dirs@.len() ==> dir_child_ok(dir.path@, #[trigger] dir.dirs@[k2]),
        distinct_parts(child_parts(dir)),
        wf_dirs(format@, root, dir, cc, k),
        0 <= k <= dir.dirs@.len(),
        dirs.dom().contains(parts_bytes(cc)),
        dirs[parts_bytes(cc)].1 == names_prefix(dir, dir.files@.len() + k),
        front + dirs_blocks(format@, dir, k) <= format@.block_num,
    ensures
        spec_trace_dirs(format, root, dir, k, img) is Ok,
        tree_state_ok(format@, spec_trace_dirs(format, root, dir, k, img)->Ok_0, len0, r.0, r.1, r.2),
        r.2 == front + dirs_blocks(format@, dir, k),
        grows(dirs, files, r.0, r.1),
        forall|x: Seq<Seq<u8>>|
            #[trigger] dirs.dom().contains(x) && !prefix_of(parts_bytes(cc), x) ==> r.0.dom().contains(x)
                && r.0[x] == dirs[x],
        dirs_recorded(format@, root, dir, cc, r.0, r.1, k),
    decreases dir, 2 * (dir.dirs@.len() - k) + 1,
{
    let p = format@;
    let c = parts_bytes(cc);
    let nd = dir.dirs@.len() as int;
    if k == nd {
        lemma_grows_refl(dirs, files);
        (dirs, files, front)
    } else {
        let d = dir.dirs@[k];
        let cd = cc.push(part_after(dir.path@, d.path@));
        lemma_dirs_blocks_nonneg(p, dir, k + 1);
        assert(dirs_blocks(p, dir, k) == 1 + tree_blocks(p, d) + dirs_blocks(p, dir, k + 1));
        assert(wf_tree(p, root, d, cd) && wf_dirs(p, root, dir, cc, k + 1));
        let rc = lemma_trace_one_dir(format, root, dir, cc, k, img, len0, dirs, files, front);
        let img1 = format.spec_add_directory(root, d.path@, img)->Ok_0;
        let img2 = spec_trace(format, root, d, img1)->Ok_0;
        assert(dir.files@.len() + k + 1 == dir.files@.len() + (k + 1));
        let rr = lemma_trace_dirs(format, root, dir, cc, k + 1, img2, len0, rc.0, rc.1, rc.2);
        lemma_grows_trans(dirs, files, rc.0, rc.1, rr.0, rr.1);
        lemma_tree_recorded_grows(p, root, d, cd, rc.0, rc.1, rr.0, rr.1);
        assert(spec_trace_dirs(format, root, dir, k, img) == spec_trace_dirs(format, root, dir, k + 1, img2));
        rr
    }
}

/// What making an image from a tree gives: when the block map can be laid
/// out, and the tree is one the image maker can copy in full (every file
/// and directory directly under its parent with a plain name of one to
/// fifteen characters, names different within each directory, no more
/// items in a directory than one block holds, files not empty) and its
/// contents and directories fit in the blocks after the reserved ones,
/// making the image succeeds, and every file of the tree is found in it:
/// the directory that holds it is found from its path, holds an item of
/// its name for a file of its length, and its contents read back from the
/// item's first block.
pub proof fn lemma_made_image_holds_the_tree(format: TianMu, root: Seq<char>, tree: SourceDir, img: Seq<u8>)
    requires
        params_ok(format@),
        img.len() <= usize::MAX,
        spec_init(format@, img) is Ok,
        wf_tree(format@, root, tree, Seq::<Seq<char>>::empty()),
        reserved_blocks(format@) + tree_blocks(format@, tree) <= format@.block_num,
    ensures
        spec_make(format, root, tree, img) is Ok,
        tree_found(format@, root, tree, Seq::<Seq<char>>::empty(), spec_make(format, root, tree, img)->Ok_0),
{
    let p = format@;
    let bs = p.block_size as int;
    let res = reserved_blocks(p);
    let rb = root_block(p) as int;
    lemma_tree_blocks_nonneg(p, tree);
    lemma_made_start(p, root, tree.files@, img);
    let img1 = spec_init(p, img)->Ok_0;
    let img2 = spec_super_block(p, img1);
    let len0 = img1.len() as int;
    let empty = Seq::<Seq<u8>>::empty();
    let dirs0 = Map::<Seq<Seq<u8>>, (int, Seq<Seq<u8>>, Seq<DirEntryView>)>::empty().insert(
        empty,
        (rb, Seq::<Seq<u8>>::empty(), Seq::<DirEntryView>::empty()),
    );
    let files0 = Seq::<(int, Seq<u8>)>::empty();
    crate::laws::block_map::lemma_root_past_map(p);
    assert(res == rb + 1);
    assert(blocks_before(p, tree.files@, 0) == 0);
    // The starting state.
    assert(map_ok(p, img2, res));
    assert(dir_block_ok(p, img2, rb, Seq::<Seq<u8>>::empty(), Seq::<DirEntryView>::empty())) by {
        assert(u64_at(img2, p.block_map_addr + 8 * rb) == END);
    }
    assert forall|c: Seq<Seq<u8>>| #[trigger] dirs0.dom().contains(c) implies {
        &&& crate::laws::tree::plain_byte_parts(c)
        &&& dir_block_ok(p, img2, dirs0[c].0, dirs0[c].1, dirs0[c].2)
        &&& (c.len() > 0 ==> reserved_blocks(p) <= dirs0[c].0 < res)
    } by {
        assert(c == empty);
    }
    assert forall|c1: Seq<Seq<u8>>, c2: Seq<Seq<u8>>|
        #[trigger] dirs0.dom().contains(c1) && #[trigger] dirs0.dom().contains(c2) && c1 != c2 implies dirs0[c1].0
        != dirs0[c2].0 by {
        assert(c1 == empty && c2 == empty);
    }
    assert(dirs_ok(p, img2, dirs0, res));
    assert(files_ok(p, img2, dirs0, files0, res));
    assert(tree_state_ok(p, img2, len0, dirs0, files0, res));
    assert(parts_bytes(Seq::<Seq<char>>::empty()) =~= empty);
    let r = lemma_trace_tree(format, root, tree, Seq::<Seq<char>>::empty(), img2, len0, dirs0, files0, res);
    let imgn = spec_trace(format, root, tree, img2)->Ok_0;
    assert(spec_make(format, root, tree, img) == Ok::<Seq<u8>, MakeError>(imgn));
    lemma_tree_found(p, root, tree, Seq::<Seq<char>>::empty(), imgn, len0, r.0, r.1, r.2);
}

} // verus!
