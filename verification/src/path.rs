//! Paths as the image maker reads them: UTF-8 bytes split at `/`.
use vstd::prelude::*;
use vstd::utf8::*;

verus! {

/// The byte `/`.
pub const SLASH: u8 = 0x2f;

/// The index just after the last `/` among the first `i` bytes of `s`, or
/// 0 when there is none.
pub open spec fn name_start_from(s: Seq<u8>, i: int) -> int
    decreases i,
{
    if i <= 0 {
        0
    } else if s[i - 1] == SLASH {
        i
    } else {
        name_start_from(s, i - 1)
    }
}

/// The last `/`-separated part of `s`.
pub open spec fn last_name(s: Seq<u8>) -> Seq<u8> {
    s.subrange(name_start_from(s, s.len() as int), s.len() as int)
}

/// `r` occurs in `s` starting at index `i`.
pub open spec fn occurs_at(s: Seq<u8>, r: Seq<u8>, i: int) -> bool {
    0 <= i && i + r.len() <= s.len() && s.subrange(i, i + r.len()) == r
}

/// The first index at or after `i` where `r` occurs in `s`.
pub open spec fn first_occurrence_from(s: Seq<u8>, r: Seq<u8>, i: int) -> Option<int>
    decreases s.len() + 1 - i,
{
    if i < 0 || i + r.len() > s.len() {
        None
    } else if occurs_at(s, r, i) {
        Some(i)
    } else {
        first_occurrence_from(s, r, i + 1)
    }
}

/// What follows the first occurrence of `r` in `s`, if `r` occurs.
pub open spec fn after_first(s: Seq<u8>, r: Seq<u8>) -> Option<Seq<u8>> {
    match first_occurrence_from(s, r, 0) {
        Some(i) => Some(s.subrange(i + r.len(), s.len() as int)),
        None => None,
    }
}

/// The parts of `s` that end in a `/`, scanning from index `i` with the
/// current part starting at `start`. The part after the last `/` is not
/// among them.
pub open spec fn segments_from(s: Seq<u8>, start: int, i: int) -> Seq<Seq<u8>>
    decreases s.len() - i,
{
    if i < 0 || i >= s.len() {
        Seq::empty()
    } else if s[i] == SLASH {
        seq![s.subrange(start, i)] + segments_from(s, i + 1, i + 1)
    } else {
        segments_from(s, start, i + 1)
    }
}

/// The directory parts of a path: every part that a `/` ends.
pub open spec fn dir_segments(s: Seq<u8>) -> Seq<Seq<u8>> {
    segments_from(s, 0, 0)
}

/// The index just after the last `/` in `b`, or 0.
pub fn name_start(b: &[u8]) -> (r: usize)
    ensures
        r as int == name_start_from(b@, b@.len() as int),
        r <= b@.len(),
        r > 0 ==> b@[r - 1] == SLASH,
{
    let mut i = b.len();
    while i > 0
        invariant
            i <= b@.len(),
            name_start_from(b@, b@.len() as int) == name_start_from(b@, i as int),
        decreases i,
    {
        if b[i - 1] == SLASH {
            return i;
        }
        i = i - 1;
    }
    0
}

/// In valid UTF-8, the index just after an ASCII byte starts a character.
pub proof fn lemma_boundary_after_ascii(bytes: Seq<u8>, k: int)
    requires
        valid_utf8(bytes),
        0 <= k < bytes.len(),
        bytes[k] <= 0x7f,
    ensures
        is_char_boundary(bytes, k + 1),
{
    if k + 1 == bytes.len() {
        is_char_boundary_start_end_of_seq(bytes);
    } else {
        is_char_boundary_iff_not_is_continuation_byte(bytes, k);
        valid_utf8_split(bytes, k);
        let s = bytes.subrange(k, bytes.len() as int);
        assert(s[0] == bytes[k]);
        assert(valid_first_scalar(s));
        assert(length_of_first_scalar(s) == 1);
        let rest = pop_first_scalar(s);
        assert(rest =~= bytes.subrange(k + 1, bytes.len() as int));
        assert(valid_utf8(rest));
        assert(valid_first_scalar(rest));
        assert(rest[0] == bytes[k + 1]);
        is_char_boundary_iff_is_leading_byte(bytes, k + 1);
    }
}

/// The last `/`-separated part of a path, as text.
pub fn last_name_string(path: &String) -> (r: String)
    ensures
        encode_utf8(r@) == last_name(encode_utf8(path@)),
{
    let s = path.as_str();
    let b = s.as_bytes();
    let k = name_start(b);
    proof {
        broadcast use encode_utf8_valid_utf8;
        if k > 0 {
            lemma_boundary_after_ascii(b@, k - 1);
        } else {
            is_char_boundary_start_end_of_seq(b@);
        }
    }
    let (_, tail) = s.split_at(k);
    let r = tail.to_owned();
    r
}

/// What follows the first occurrence of `r` in `s`, if `r` occurs.
pub fn split_after_first(s: &[u8], r: &[u8]) -> (out: Option<Vec<u8>>)
    ensures
        match after_first(s@, r@) {
            Some(t) => out matches Some(v) && v@ == t,
            None => out is None,
        },
{
    let n = s.len();
    let m = r.len();
    if m > n {
        return None;
    }
    let mut i: usize = 0;
    while i <= n - m
        invariant
            n == s@.len(),
            m == r@.len(),
            m <= n,
            i <= n - m + 1,
            first_occurrence_from(s@, r@, 0) == first_occurrence_from(s@, r@, i as int),
        decreases n - m + 1 - i,
    {
        let mut j: usize = 0;
        let mut same = true;
        while j < m
            invariant
                i + m <= n,
                n == s@.len(),
                m == r@.len(),
                j <= m,
                same == (forall|t: int| 0 <= t < j ==> s@[i + t] == r@[t]),
            decreases m - j,
        {
            if s[i + j] != r[j] {
                same = false;
            }
            j = j + 1;
        }
        if same {
            assert(s@.subrange(i as int, i + m) =~= r@);
            let tail = vstd::slice::slice_subrange(s, i + m, n);
            return Some(vstd::slice::slice_to_vec(tail));
        }
        assert(!occurs_at(s@, r@, i as int)) by {
            if s@.subrange(i as int, i + m) == r@ {
                assert(forall|t: int| 0 <= t < m ==> s@[i + t] == #[trigger] s@.subrange(i as int, i + m)[t]);
            }
        }
        i = i + 1;
    }
    None
}

} // verus!
