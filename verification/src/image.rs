//! The image as a growable byte array with file-like writes and reads.
use vstd::prelude::*;
use vstd::bytes::*;

verus! {

/// The contents of `img` after writing `data` at byte offset `pos`, as a
/// file would hold them: bytes past the old end that the write skips over
/// read as zero, and writing nothing changes nothing.
pub open spec fn write_at(img: Seq<u8>, pos: int, data: Seq<u8>) -> Seq<u8> {
    let end = pos + data.len();
    let new_len = if data.len() > 0 && img.len() < end { end } else { img.len() as int };
    Seq::new(
        new_len as nat,
        |i: int|
            if pos <= i < end {
                data[i - pos]
            } else if i < img.len() {
                img[i]
            } else {
                0u8
            },
    )
}

/// `n` bytes starting at `pos` lie inside the image.
pub open spec fn readable(img: Seq<u8>, pos: int, n: int) -> bool {
    0 <= pos && pos + n <= img.len()
}

/// The little-endian `u64` stored at `pos`.
pub open spec fn u64_at(img: Seq<u8>, pos: int) -> u64 {
    spec_u64_from_le_bytes(img.subrange(pos, pos + 8))
}

/// Writes `data` at `pos`, growing the image as a file grows.
pub fn write_bytes(img: &mut Vec<u8>, pos: usize, data: &[u8])
    requires
        pos + data@.len() <= usize::MAX,
    ensures
        final(img)@ == write_at(old(img)@, pos as int, data@),
{
    let end = pos + data.len();
    if data.len() > 0 && img.len() < end {
        img.resize(end, 0u8);
    }
    let ghost mid = img@;
    let mut i: usize = 0;
    while i < data.len()
        invariant
            end == pos + data@.len(),
            img@.len() == mid.len(),
            data@.len() > 0 ==> mid.len() >= end,
            i <= data@.len(),
            forall|k: int| 0 <= k < img@.len() ==> #[trigger] img@[k] == (
                if pos <= k < pos + i { data@[k - pos] } else { mid[k] }),
        decreases data@.len() - i,
    {
        img.set(pos + i, data[i]);
        i = i + 1;
    }
    assert(img@ =~= write_at(old(img)@, pos as int, data@));
}

/// Reads the little-endian `u64` at `pos`; `None` when those eight bytes do
/// not lie inside the image.
pub fn read_u64(img: &Vec<u8>, pos: usize) -> (r: Option<u64>)
    ensures
        r == (if readable(img@, pos as int, 8) { Some(u64_at(img@, pos as int)) } else { None }),
{
    if pos <= img.len() && img.len() - pos >= 8 {
        let s = vstd::slice::slice_subrange(img.as_slice(), pos, pos + 8);
        Some(u64_from_le_bytes(s))
    } else {
        None
    }
}

/// The buffer after a file read of `prev.len()` bytes at `pos` into a
/// buffer that held `prev`: the bytes that lie inside the image replace
/// the front of the buffer, the rest keep their old values.
pub open spec fn read_over(img: Seq<u8>, pos: int, prev: Seq<u8>) -> Seq<u8> {
    Seq::new(prev.len(), |i: int| if pos + i < img.len() { img[pos + i] } else { prev[i] })
}

/// How many bytes a file read of `want` bytes at `pos` transfers.
pub open spec fn read_count(img: Seq<u8>, pos: int, want: int) -> int {
    if pos >= img.len() {
        0
    } else if img.len() - pos < want {
        img.len() - pos
    } else {
        want
    }
}

/// A read as the image file performs it: fills `buf` from `pos` as far as
/// the image reaches and returns the number of bytes read.
pub fn read_into(img: &Vec<u8>, pos: usize, buf: &mut Vec<u8>) -> (n: usize)
    ensures
        n == read_count(img@, pos as int, old(buf)@.len() as int),
        final(buf)@ == read_over(img@, pos as int, old(buf)@),
{
    let len = buf.len();
    let mut i: usize = 0;
    let ghost prev = buf@;
    while i < len
        invariant
            len == prev.len(),
            buf@.len() == len,
            i <= len,
            forall|k: int| 0 <= k < len ==> #[trigger] buf@[k] == (
                if k < i && pos + k < img@.len() { img@[pos + k] } else { prev[k] }),
        decreases len - i,
    {
        if pos < img.len() && i < img.len() - pos {
            let b = img[pos + i];
            buf.set(i, b);
        }
        i = i + 1;
    }
    assert(buf@ =~= read_over(img@, pos as int, prev));
    if pos >= img.len() {
        0
    } else if img.len() - pos < len {
        img.len() - pos
    } else {
        len
    }
}

/// `n` zero bytes.
pub open spec fn zeros(n: nat) -> Seq<u8> {
    Seq::new(n, |i: int| 0u8)
}

/// A vector of `n` zero bytes.
pub fn zero_bytes(n: usize) -> (r: Vec<u8>)
    ensures
        r@ == zeros(n as nat),
{
    let mut r: Vec<u8> = Vec::new();
    r.resize(n, 0u8);
    assert(r@ =~= zeros(n as nat));
    r
}

/// Two writes, the second starting where the first ended, leave what one
/// write of both pieces leaves.
pub proof fn lemma_write_concat(img: Seq<u8>, pos: int, a: Seq<u8>, b: Seq<u8>)
    requires
        0 <= pos,
    ensures
        write_at(write_at(img, pos, a), pos + a.len(), b) == write_at(img, pos, a + b),
{
    assert(write_at(write_at(img, pos, a), pos + a.len(), b) =~= write_at(img, pos, a + b));
}

} // verus!
