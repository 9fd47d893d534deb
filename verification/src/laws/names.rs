//! Laws of plain names and of paths directly under the root.
use vstd::prelude::*;
use crate::entry::{name_matches, name_field, until_nul, latin1};
use crate::path::{SLASH, after_first, last_name, dir_segments, segments_from, name_start_from,
    first_occurrence_from, occurs_at};
use vstd::utf8::{encode_utf8, encode_scalar, has_width_1_encoding, encode_utf8_decode_utf8};

verus! {

/// A name of ASCII bytes other than zero.
pub open spec fn plain_name(name: Seq<u8>) -> bool {
    forall|i: int| 0 <= i < name.len() ==> 0 < #[trigger] name[i] < 0x80
}

/// The bytes before the first zero of a plain name followed by zero bytes
/// are the name.
pub(crate) proof fn lemma_until_nul_plain(name: Seq<u8>, pad: Seq<u8>)
    requires
        plain_name(name),
        pad.len() == 0 || pad[0] == 0,
    ensures
        until_nul(name + pad) == name,
    decreases name.len(),
{
    if name.len() == 0 {
        assert(name + pad =~= pad);
    } else {
        assert((name + pad).drop_first() =~= name.drop_first() + pad);
        assert(plain_name(name.drop_first())) by {
            assert forall|i: int| 0 <= i < name.drop_first().len() implies 0 < #[trigger] name.drop_first()[i]
                < 0x80 by {
                assert(name.drop_first()[i] == name[i + 1]);
            }
        }
        lemma_until_nul_plain(name.drop_first(), pad);
        assert(seq![name[0]] + name.drop_first() =~= name);
    }
}

/// The UTF-8 bytes of the characters of a plain name are the name.
pub(crate) proof fn lemma_utf8_of_plain(name: Seq<u8>)
    requires
        plain_name(name),
    ensures
        encode_utf8(latin1(name)) == name,
    decreases name.len(),
{
    if name.len() > 0 {
        let b = name[0];
        assert(0 < b < 0x80);
        let c = latin1(name)[0];
        assert(c == b as char);
        assert((c as u32) == b as u32);
        let u = b as u32;
        assert(u <= 0x7F);
        assert(has_width_1_encoding(u));
        assert((u & 0x7F) as u8 == b) by (bit_vector)
            requires
                u == b as u32,
                b < 0x80u8,
        ;
        assert(encode_scalar(c as u32) =~= seq![b]);
        assert(latin1(name).drop_first() =~= latin1(name.drop_first()));
        assert(plain_name(name.drop_first())) by {
            assert forall|i: int| 0 <= i < name.drop_first().len() implies 0 < #[trigger] name.drop_first()[i]
                < 0x80 by {
                assert(name.drop_first()[i] == name[i + 1]);
            }
        }
        lemma_utf8_of_plain(name.drop_first());
        assert(seq![b] + name.drop_first() =~= name);
    }
}

/// The name field of a plain name of at most fifteen bytes matches it.
pub proof fn lemma_plain_name_matches(name: Seq<u8>)
    requires
        plain_name(name),
        name.len() <= 15,
    ensures
        name_matches(name_field(name), name),
        name_field(name).len() == 15,
{
    let pad = Seq::new((15 - name.len()) as nat, |i: int| 0u8);
    assert(name_field(name) =~= name + pad);
    lemma_until_nul_plain(name, pad);
    lemma_utf8_of_plain(name);
}

/// A plain name without a `/`.
pub open spec fn plain_part(name: Seq<u8>) -> bool {
    plain_name(name) && forall|i: int| 0 <= i < name.len() ==> #[trigger] name[i] != SLASH
}

/// The start of the last part of `root / name` is just after the `/`.
pub(crate) proof fn lemma_name_start(root: Seq<u8>, name: Seq<u8>, i: int)
    requires
        plain_part(name),
        root.len() + 1 <= i <= root.len() + 1 + name.len(),
    ensures
        name_start_from(root + seq![SLASH] + name, i) == root.len() + 1,
    decreases i,
{
    let path = root + seq![SLASH] + name;
    if i > root.len() + 1 {
        assert(path[i - 1] == name[i - 1 - root.len() - 1]);
        lemma_name_start(root, name, i - 1);
    } else {
        assert(path[i - 1] == SLASH);
    }
}

/// A run of bytes without `/` ends no directory part.
pub(crate) proof fn lemma_no_more_segments(s: Seq<u8>, start: int, i: int)
    requires
        0 <= i,
        forall|k: int| i <= k < s.len() ==> #[trigger] s[k] != SLASH,
    ensures
        segments_from(s, start, i) =~= Seq::<Seq<u8>>::empty(),
    decreases s.len() - i,
{
    if i < s.len() {
        lemma_no_more_segments(s, start, i + 1);
    }
}

/// The parts of the path `root / name`, for a name without `/`: what
/// follows the root is `/name`, whose one directory part is empty, and the
/// last part is the name.
pub proof fn lemma_path_under_root(root: Seq<u8>, name: Seq<u8>)
    requires
        plain_part(name),
    ensures
        after_first(root + seq![SLASH] + name, root) == Some(seq![SLASH] + name),
        last_name(root + seq![SLASH] + name) == name,
        dir_segments(seq![SLASH] + name) == seq![Seq::<u8>::empty()],
{
    let path = root + seq![SLASH] + name;
    assert(path.subrange(0, root.len() as int) =~= root);
    assert(occurs_at(path, root, 0));
    assert(first_occurrence_from(path, root, 0) == Some(0int));
    assert(path.subrange(root.len() as int, path.len() as int) =~= seq![SLASH] + name);
    lemma_name_start(root, name, path.len() as int);
    assert(path.subrange(root.len() + 1int, path.len() as int) =~= name);
    let rel = seq![SLASH] + name;
    assert forall|k: int| 1 <= k < rel.len() implies #[trigger] rel[k] != SLASH by {
        assert(rel[k] == name[k - 1]);
    }
    lemma_no_more_segments(rel, 1, 1);
    assert(rel.subrange(0, 0) =~= Seq::<u8>::empty());
    assert(seq![Seq::<u8>::empty()] + Seq::<Seq<u8>>::empty() =~= seq![Seq::<u8>::empty()]);
}

/// A file name of ASCII characters other than NUL and `/`.
pub open spec fn plain_chars(cs: Seq<char>) -> bool {
    forall|i: int| 0 <= i < cs.len() ==> 0 < #[trigger] (cs[i] as u32) < 0x80 && (cs[i] as u32) != 0x2f
}

/// The UTF-8 bytes of two pieces of text one after the other are the
/// bytes of each, one after the other.
pub proof fn lemma_encode_concat(a: Seq<char>, b: Seq<char>)
    ensures
        encode_utf8(a + b) == encode_utf8(a) + encode_utf8(b),
    decreases a.len(),
{
    if a.len() > 0 {
        assert((a + b).drop_first() =~= a.drop_first() + b);
        lemma_encode_concat(a.drop_first(), b);
        assert((a + b)[0] == a[0]);
        assert(encode_scalar(a[0] as u32) + (encode_utf8(a.drop_first()) + encode_utf8(b)) =~= (encode_scalar(
            a[0] as u32,
        ) + encode_utf8(a.drop_first())) + encode_utf8(b));
    } else {
        assert(a + b =~= b);
        assert(encode_utf8(a) =~= Seq::<u8>::empty());
        assert(encode_utf8(a) + encode_utf8(b) =~= encode_utf8(b));
    }
}

/// The UTF-8 bytes of an ASCII character are the character's code.
proof fn lemma_encode_ascii_char(c: char)
    requires
        (c as u32) < 0x80,
    ensures
        encode_scalar(c as u32) == seq![(c as u32) as u8],
        ((c as u32) as u8) as u32 == c as u32,
{
    let u = c as u32;
    assert(has_width_1_encoding(u));
    assert((u & 0x7F) as u8 == u as u8 && (u as u8) as u32 == u) by (bit_vector)
        requires
            u < 0x80u32,
    ;
}

/// The UTF-8 bytes of a plain file name form a plain part of the same
/// length.
pub proof fn lemma_plain_chars_bytes(cs: Seq<char>)
    requires
        plain_chars(cs),
    ensures
        encode_utf8(cs).len() == cs.len(),
        plain_part(encode_utf8(cs)),
    decreases cs.len(),
{
    if cs.len() > 0 {
        let c = cs[0];
        assert(0 < (c as u32) < 0x80 && (c as u32) != 0x2f);
        lemma_encode_ascii_char(c);
        assert(plain_chars(cs.drop_first())) by {
            assert forall|i: int| 0 <= i < cs.drop_first().len() implies 0 < #[trigger] (cs.drop_first()[i] as u32)
                < 0x80 && (cs.drop_first()[i] as u32) != 0x2f by {
                assert(cs.drop_first()[i] == cs[i + 1]);
            }
        }
        lemma_plain_chars_bytes(cs.drop_first());
        let bs = encode_utf8(cs);
        let rest = encode_utf8(cs.drop_first());
        assert(bs =~= seq![(c as u32) as u8] + rest);
        assert forall|i: int| 0 <= i < bs.len() implies 0 < #[trigger] bs[i] < 0x80 && bs[i] != SLASH by {
            if i > 0 {
                assert(bs[i] == rest[i - 1]);
            }
        }
    }
}

/// The UTF-8 bytes of the path `root/name` are the root's bytes, a `/`
/// and the name's bytes.
pub proof fn lemma_path_bytes(root: Seq<char>, cs: Seq<char>)
    ensures
        encode_utf8(root + seq!['/'] + cs) == encode_utf8(root) + seq![SLASH] + encode_utf8(cs),
{
    lemma_encode_concat(root + seq!['/'], cs);
    lemma_encode_concat(root, seq!['/']);
    assert(('/' as u32) == 0x2f);
    lemma_encode_ascii_char('/');
    assert(('/' as u32) as u8 == SLASH);
    let sl = seq!['/'];
    assert(sl[0] == '/');
    assert(sl.drop_first() =~= Seq::<char>::empty());
    assert(encode_utf8(sl.drop_first()) =~= Seq::<u8>::empty());
    assert(encode_utf8(sl) == encode_scalar(sl[0] as u32) + encode_utf8(sl.drop_first()));
    assert(encode_utf8(sl) =~= seq![SLASH]);
}

/// Different text has different UTF-8 bytes.
pub proof fn lemma_encode_injective(a: Seq<char>, b: Seq<char>)
    requires
        encode_utf8(a) == encode_utf8(b),
    ensures
        a == b,
{
    encode_utf8_decode_utf8(a);
    encode_utf8_decode_utf8(b);
}

/// The name field of a plain name matches only that name.
pub proof fn lemma_plain_field_matches_only(a: Seq<u8>, b: Seq<u8>)
    requires
        plain_name(a),
        a.len() <= 15,
    ensures
        name_matches(name_field(a), b) <==> a == b,
{
    lemma_plain_name_matches(a);
}

} // verus!
