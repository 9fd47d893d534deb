//! Laws of file-like writes and reads on an image.
use vstd::prelude::*;
use vstd::bytes::*;
use crate::image::{write_at, read_over, u64_at, zeros, read_count};
use crate::tianmu::{END, ones};

verus! {

/// Reading the bytes just written gives them back.
pub proof fn lemma_read_back_write(img: Seq<u8>, pos: int, data: Seq<u8>, buf: Seq<u8>)
    requires
        0 <= pos,
        buf.len() == data.len(),
    ensures
        read_over(write_at(img, pos, data), pos, buf) == data,
{
    assert(read_over(write_at(img, pos, data), pos, buf) =~= data);
}

/// A write leaves every byte outside the written range as it was.
pub proof fn lemma_write_elsewhere(img: Seq<u8>, pos: int, data: Seq<u8>, i: int)
    requires
        0 <= i < img.len(),
        i < pos || pos + data.len() <= i,
    ensures
        write_at(img, pos, data)[i] == img[i],
        write_at(img, pos, data).len() >= img.len(),
{
}

/// The `u64` at `a` is unchanged by a write that does not touch its bytes.
pub(crate) proof fn lemma_u64_elsewhere(img: Seq<u8>, pos: int, data: Seq<u8>, a: int)
    requires
        0 <= a,
        a + 8 <= img.len(),
        a + 8 <= pos || pos + data.len() <= a,
    ensures
        u64_at(write_at(img, pos, data), a) == u64_at(img, a),
{
    assert(write_at(img, pos, data).subrange(a, a + 8) =~= img.subrange(a, a + 8));
}

/// The `u64` just written at `a` reads back.
pub(crate) proof fn lemma_u64_written(img: Seq<u8>, a: int, v: u64)
    requires
        0 <= a,
    ensures
        u64_at(write_at(img, a, spec_u64_to_le_bytes(v)), a) == v,
{
    lemma_auto_spec_u64_to_from_le_bytes();
    assert(write_at(img, a, spec_u64_to_le_bytes(v)).subrange(a, a + 8) =~= spec_u64_to_le_bytes(v));
}

/// A read of `buf.len()` bytes that lies inside the image gives those bytes.
pub(crate) proof fn lemma_full_read(img: Seq<u8>, pos: int, buf: Seq<u8>)
    requires
        0 <= pos,
        pos + buf.len() <= img.len(),
    ensures
        read_over(img, pos, buf) == img.subrange(pos, pos + buf.len()),
        read_count(img, pos, buf.len() as int) == buf.len(),
{
    assert(read_over(img, pos, buf) =~= img.subrange(pos, pos + buf.len()));
}

/// Two images agree on the bytes `lo..hi`.
pub open spec fn same_bytes(a: Seq<u8>, b: Seq<u8>, lo: int, hi: int) -> bool {
    forall|i: int| lo <= i < hi ==> #[trigger] a[i] == b[i]
}

/// Eight `0xff` bytes hold `END`; eight zero bytes hold `0`.
pub(crate) proof fn lemma_end_and_zero_bytes()
    ensures
        spec_u64_from_le_bytes(ones(8)) == END,
        spec_u64_from_le_bytes(zeros(8)) == 0,
{
    lemma_auto_spec_u64_to_from_le_bytes();
    spec_u64_to_le_bytes_to_open(END);
    spec_u64_to_le_bytes_to_open(0);
    let e: u64 = 0xffff_ffff_ffff_ffff;
    let z: u64 = 0;
    assert((e & 0xff) as u8 == 0xff && ((e >> 8) & 0xff) as u8 == 0xff && ((e >> 16) & 0xff) as u8
        == 0xff && ((e >> 24) & 0xff) as u8 == 0xff && ((e >> 32) & 0xff) as u8 == 0xff && ((e >> 40)
        & 0xff) as u8 == 0xff && ((e >> 48) & 0xff) as u8 == 0xff && ((e >> 56) & 0xff) as u8 == 0xff
        && (z & 0xff) as u8 == 0 && ((z >> 8) & 0xff) as u8 == 0 && ((z >> 16) & 0xff) as u8 == 0 && ((z
        >> 24) & 0xff) as u8 == 0 && ((z >> 32) & 0xff) as u8 == 0 && ((z >> 40) & 0xff) as u8 == 0 && ((
    z >> 48) & 0xff) as u8 == 0 && ((z >> 56) & 0xff) as u8 == 0) by (bit_vector)
        requires
            e == 0xffff_ffff_ffff_ffffu64,
            z == 0u64,
    ;
    assert(spec_u64_to_le_bytes(END) =~= ones(8));
    assert(spec_u64_to_le_bytes(0) =~= zeros(8));
}

} // verus!
