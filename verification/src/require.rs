//! What a file-system format supplies to the image maker.
use vstd::prelude::*;

verus! {

/// Why building an image stopped.
#[derive(Clone, Copy, Debug, PartialEq, Eq)]
pub enum MakeError {
    /// A read started at or past the end of the image.
    ReadPastEnd,
    /// The block map holds fewer free blocks than were needed.
    NoFreeBlock,
    /// A file without contents has no first block to record.
    EmptyFile,
    /// A chain of blocks never reaches its end.
    ChainLoops,
    /// A directory's block-map entry marks its block as free.
    FreeChainEntry,
    /// The path does not contain the root path.
    RootNotInPath,
    /// A directory on the path is not in its parent directory.
    DirNotFound,
    /// A name longer than fifteen bytes cannot be cut after its fifteenth
    /// byte without splitting a character.
    NameNotCharBoundary,
    /// A directory name has more than fifteen bytes.
    NameTooLong,
    /// No free slot was found for a new directory item.
    DirFull,
    /// An offset or a count does not fit the machine's integers, or a
    /// format parameter leaves a division by zero.
    Overflow,
}

/// How a call that changes the image ended: `Ok` with the image it left,
/// or the error it returned.
pub open spec fn outcome_matches(
    expected: Result<Seq<u8>, MakeError>,
    result: Result<(), MakeError>,
    image: Seq<u8>,
) -> bool {
    match expected {
        Ok(i) => result is Ok && image == i,
        Err(e) => result == Err::<(), MakeError>(e),
    }
}

/// A file-system format: how it lays out an empty image and how it adds
/// files and directories to one. Each operation is described by a spec
/// function of the format, and the operation does what its spec function
/// says.
pub trait MakeSystem {
    /// The image after adding the directory at `path` (which lies under
    /// `root_path`), or the error that stops it.
    spec fn spec_add_directory(&self, root_path: Seq<char>, path: Seq<char>, image: Seq<u8>) -> Result<Seq<u8>, MakeError>;

    /// The image after adding the file at `path` with the given contents,
    /// or the error that stops it.
    spec fn spec_add_file(&self, root_path: Seq<char>, path: Seq<char>, content: Seq<u8>, image: Seq<u8>) -> Result<Seq<u8>, MakeError>;

    /// The image after writing the super block, or the error that stops it.
    spec fn spec_make_super_block(&self, image: Seq<u8>) -> Result<Seq<u8>, MakeError>;

    /// The image after laying out an empty block map, or the error that
    /// stops it.
    spec fn spec_init_block_map(&self, image: Seq<u8>) -> Result<Seq<u8>, MakeError>;

    fn add_directory(&self, root_path: &String, path: &String, image: &mut Vec<u8>) -> (r: Result<(), MakeError>)
        ensures
            outcome_matches(self.spec_add_directory(root_path@, path@, old(image)@), r, final(image)@),
    ;

    fn add_file(&self, root_path: &String, path: &String, content: &Vec<u8>, image: &mut Vec<u8>) -> (r: Result<(), MakeError>)
        ensures
            outcome_matches(self.spec_add_file(root_path@, path@, content@, old(image)@), r, final(image)@),
    ;

    fn make_super_block(&self, image: &mut Vec<u8>) -> (r: Result<(), MakeError>)
        ensures
            outcome_matches(self.spec_make_super_block(old(image)@), r, final(image)@),
    ;

    fn init_block_map(&self, image: &mut Vec<u8>) -> (r: Result<(), MakeError>)
        ensures
            outcome_matches(self.spec_init_block_map(old(image)@), r, final(image)@),
    ;
}

} // verus!
