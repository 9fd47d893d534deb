//! The image maker: lays out an empty image in a format and copies a
//! directory tree into it.
use vstd::prelude::*;
use crate::require::{MakeError, MakeSystem, outcome_matches};
use crate::fs_items::SuperBlockFields;
use crate::tianmu::{decode_super_block, decode_super_block_bytes};
use crate::image::{read_over, read_into, zeros, zero_bytes};

verus! {

/// A file of the source tree: its path and its contents.
pub struct SourceFile {
    pub path: String,
    pub content: Vec<u8>,
}

/// A directory of the source tree: its path, the files in it and the
/// directories in it, each in the order the directory listing gives them.
pub struct SourceDir {
    pub path: String,
    pub files: Vec<SourceFile>,
    pub dirs: Vec<SourceDir>,
}

/// An image under construction: the root of the source tree, where the
/// image goes, its format, and the image's bytes.
pub struct Maker<T: MakeSystem> {
    pub root_path: String,
    pub target_path: String,
    pub format: T,
    pub image: Vec<u8>,
}

/// Adding the files `files`, in order, to the image.
pub open spec fn spec_add_files<T: MakeSystem>(
    format: T,
    root: Seq<char>,
    files: Seq<SourceFile>,
    img: Seq<u8>,
) -> Result<Seq<u8>, MakeError>
    decreases files.len(),
{
    if files.len() == 0 {
        Ok(img)
    } else {
        match format.spec_add_file(root, files[0].path@, files[0].content@, img) {
            Err(e) => Err(e),
            Ok(i) => spec_add_files(format, root, files.drop_first(), i),
        }
    }
}

/// Copying the directory `dir` into the image: first its files, then, for
/// each of its directories in turn, that directory and what it holds.
pub open spec fn spec_trace<T: MakeSystem>(format: T, root: Seq<char>, dir: SourceDir, img: Seq<u8>) -> Result<
    Seq<u8>,
    MakeError,
>
    decreases dir, dir.dirs@.len() + 1,
{
    match spec_add_files(format, root, dir.files@, img) {
        Err(e) => Err(e),
        Ok(i) => spec_trace_dirs(format, root, dir, 0, i),
    }
}

/// Copying the directories of `dir` from the `k`-th on: each one is added,
/// then filled.
pub open spec fn spec_trace_dirs<T: MakeSystem>(
    format: T,
    root: Seq<char>,
    dir: SourceDir,
    k: int,
    img: Seq<u8>,
) -> Result<Seq<u8>, MakeError>
    decreases dir, dir.dirs@.len() - k,
{
    if k < 0 || k >= dir.dirs@.len() {
        Ok(img)
    } else {
        let d = dir.dirs@[k];
        match format.spec_add_directory(root, d.path@, img) {
            Err(e) => Err(e),
            Ok(i) => match spec_trace(format, root, d, i) {
                Err(e) => Err(e),
                Ok(i2) => spec_trace_dirs(format, root, dir, k + 1, i2),
            },
        }
    }
}

/// Making an image: the block map is laid out, the super block written,
/// and the source tree copied in.
pub open spec fn spec_make<T: MakeSystem>(format: T, root: Seq<char>, tree: SourceDir, img: Seq<u8>) -> Result<
    Seq<u8>,
    MakeError,
> {
    match format.spec_init_block_map(img) {
        Err(e) => Err(e),
        Ok(i1) => match format.spec_make_super_block(i1) {
            Err(e) => Err(e),
            Ok(i2) => spec_trace(format, root, tree, i2),
        },
    }
}

impl<T: MakeSystem> Maker<T> {
    /// A maker that writes over `image`, the current contents of the image
    /// file at `target_path`.
    pub fn new(root_path: String, target_path: String, format: T, image: Vec<u8>) -> (r: Self)
        ensures
            r.root_path == root_path,
            r.target_path == target_path,
            r.format == format,
            r.image == image,
    {
        Maker { root_path, target_path, format, image }
    }

    /// A maker over `image`, the contents of the image file at
    /// `target_path`, for reading it.
    pub fn read(root_path: String, target_path: String, format: T, image: Vec<u8>) -> (r: Self)
        ensures
            r.root_path == root_path,
            r.target_path == target_path,
            r.format == format,
            r.image == image,
    {
        Maker { root_path, target_path, format, image }
    }

    /// Makes the image from the source tree `tree`, whose root is
    /// `root_path` (see `spec_make`).
    pub fn make(&mut self, tree: &SourceDir) -> (r: Result<(), MakeError>)
        ensures
            final(self).root_path == old(self).root_path,
            final(self).target_path == old(self).target_path,
            final(self).format == old(self).format,
            outcome_matches(
                spec_make(old(self).format, old(self).root_path@, *tree, old(self).image@),
                r,
                final(self).image@,
            ),
    {
        match self.format.init_block_map(&mut self.image) {
            Ok(()) => {},
            Err(e) => {
                return Err(e);
            },
        }
        match self.format.make_super_block(&mut self.image) {
            Ok(()) => {},
            Err(e) => {
                return Err(e);
            },
        }
        self.trace(tree)
    }

    /// The super block at the start of the image: the first 1024 bytes
    /// (fewer when the image is shorter, the rest read as zero) taken as a
    /// TianMu super block. An empty image has none.
    pub fn print_super_block(&self) -> (r: Result<SuperBlockFields, MakeError>)
        ensures
            match r {
                Ok(sb) => self.image@.len() > 0 && sb@ == decode_super_block(
                    read_over(self.image@, 0, zeros(1024)),
                ),
                Err(e) => self.image@.len() == 0 && e == MakeError::ReadPastEnd,
            },
    {
        let mut data = zero_bytes(1024);
        let n = read_into(&self.image, 0, &mut data);
        if n == 0 {
            return Err(MakeError::ReadPastEnd);
        }
        Ok(decode_super_block_bytes(data.as_slice()))
    }

    /// Copies the directory `dir` into the image (see `spec_trace`).
    fn trace(&mut self, dir: &SourceDir) -> (r: Result<(), MakeError>)
        ensures
            final(self).root_path == old(self).root_path,
            final(self).target_path == old(self).target_path,
            final(self).format == old(self).format,
            outcome_matches(
                spec_trace(old(self).format, old(self).root_path@, *dir, old(self).image@),
                r,
                final(self).image@,
            ),
        decreases dir, dir.dirs@.len() + 1,
    {
        let ghost root = self.root_path@;
        let ghost format = self.format;
        let ghost img0 = self.image@;
        let mut k: usize = 0;
        assert(dir.files@.subrange(0, dir.files@.len() as int) =~= dir.files@);
        while k < dir.files.len()
            invariant
                self.root_path@ == root,
                self.root_path == old(self).root_path,
                self.target_path == old(self).target_path,
                self.format == format,
                format == old(self).format,
                img0 == old(self).image@,
                k <= dir.files@.len(),
                spec_add_files(format, root, dir.files@, img0) == spec_add_files(
                    format,
                    root,
                    dir.files@.subrange(k as int, dir.files@.len() as int),
                    self.image@,
                ),
            decreases dir.files@.len() - k,
        {
            let f = &dir.files[k];
            let ghost rest = dir.files@.subrange(k as int, dir.files@.len() as int);
            assert(rest[0] == *f);
            assert(rest.drop_first() =~= dir.files@.subrange(k + 1, dir.files@.len() as int));
            match self.format.add_file(&self.root_path, &f.path, &f.content, &mut self.image) {
                Ok(()) => {},
                Err(e) => {
                    return Err(e);
                },
            }
            k = k + 1;
        }
        assert(dir.files@.subrange(k as int, dir.files@.len() as int) =~= Seq::<SourceFile>::empty());
        assert(spec_trace(format, root, *dir, img0) == spec_trace_dirs(format, root, *dir, 0, self.image@));
        let mut k: usize = 0;
        while k < dir.dirs.len()
            invariant
                self.root_path@ == root,
                self.root_path == old(self).root_path,
                self.target_path == old(self).target_path,
                self.format == format,
                format == old(self).format,
                img0 == old(self).image@,
                k <= dir.dirs@.len(),
                spec_trace(format, root, *dir, img0) == spec_trace_dirs(
                    format,
                    root,
                    *dir,
                    k as int,
                    self.image@,
                ),
            decreases dir.dirs@.len() - k,
        {
            let d = &dir.dirs[k];
            match self.format.add_directory(&self.root_path, &d.path, &mut self.image) {
                Ok(()) => {},
                Err(e) => {
                    return Err(e);
                },
            }
            match self.trace(d) {
                Ok(()) => {},
                Err(e) => {
                    return Err(e);
                },
            }
            k = k + 1;
        }
        Ok(())
    }
}

} // verus!
