//! Directory items: their 32-byte on-image form and the name comparison
//! used when a path is looked up.
use vstd::prelude::*;
use vstd::bytes::*;
use vstd::utf8::*;

verus! {

/// Length of the name field of a directory item.
pub const NAME_LEN: usize = 15;

/// Size in bytes of a directory item on the image.
pub const ENTRY_SIZE: usize = 32;

/// Attribute byte of a free slot.
pub const ATTR_FREE: u8 = 0;

/// Attribute byte of a file.
pub const ATTR_FILE: u8 = 1;

/// Attribute byte of a directory.
pub const ATTR_DIRECTORY: u8 = 2;

/// A directory item: fifteen name bytes, an attribute byte, the first block
/// of its contents and its length, laid out in that order on the image.
#[derive(Clone, Copy)]
pub struct DirEntry {
    pub name: [u8; 15],
    pub attr: u8,
    pub start_block: u64,
    pub length: u64,
}

/// The mathematical value of a directory item.
pub struct DirEntryView {
    pub name: Seq<u8>,
    pub attr: u8,
    pub start_block: u64,
    pub length: u64,
}

impl View for DirEntry {
    type V = DirEntryView;

    open spec fn view(&self) -> DirEntryView {
        DirEntryView {
            name: self.name@,
            attr: self.attr,
            start_block: self.start_block,
            length: self.length,
        }
    }
}

/// The name field that holds `name`: its first fifteen bytes, padded with
/// zero bytes.
pub open spec fn name_field(name: Seq<u8>) -> Seq<u8> {
    Seq::new(15, |i: int| if i < name.len() { name[i] } else { 0u8 })
}

/// The 32 bytes that store `e` on the image.
pub open spec fn encode_entry(e: DirEntryView) -> Seq<u8> {
    e.name + seq![e.attr] + spec_u64_to_le_bytes(e.start_block) + spec_u64_to_le_bytes(
        e.length,
    )
}

/// The directory item stored in the 32 bytes `b`.
pub open spec fn decode_entry(b: Seq<u8>) -> DirEntryView {
    DirEntryView {
        name: b.subrange(0, 15),
        attr: b[15],
        start_block: spec_u64_from_le_bytes(b.subrange(16, 24)),
        length: spec_u64_from_le_bytes(b.subrange(24, 32)),
    }
}

/// A slot whose attribute byte says it is free.
pub open spec fn entry_is_empty(e: DirEntryView) -> bool {
    e.attr == ATTR_FREE
}

impl DirEntry {
    /// The 32 bytes that store this item.
    pub fn encode(&self) -> (r: Vec<u8>)
        ensures
            r@ == encode_entry(self@),
            r@.len() == 32,
    {
        let mut r: Vec<u8> = Vec::new();
        let mut i: usize = 0;
        while i < NAME_LEN
            invariant
                i <= 15,
                r@ == self.name@.subrange(0, i as int),
            decreases 15 - i,
        {
            r.push(self.name[i]);
            i = i + 1;
        }
        r.push(self.attr);
        let mut s = u64_to_le_bytes(self.start_block);
        let mut l = u64_to_le_bytes(self.length);
        r.append(&mut s);
        r.append(&mut l);
        assert(self.name@.subrange(0, 15) =~= self.name@);
        r
    }

    /// The item stored in the 32 bytes `b`.
    pub fn decode(b: &[u8]) -> (r: DirEntry)
        requires
            b@.len() == 32,
        ensures
            r@ == decode_entry(b@),
    {
        let mut name = [0u8; 15];
        let mut i: usize = 0;
        while i < NAME_LEN
            invariant
                i <= 15,
                b@.len() == 32,
                forall|k: int| 0 <= k < i ==> name@[k] == b@[k],
            decreases 15 - i,
        {
            name[i] = b[i];
            i = i + 1;
        }
        let s = vstd::slice::slice_subrange(b, 16, 24);
        let l = vstd::slice::slice_subrange(b, 24, 32);
        let r = DirEntry {
            name,
            attr: b[15],
            start_block: u64_from_le_bytes(s),
            length: u64_from_le_bytes(l),
        };
        assert(r.name@ =~= b@.subrange(0, 15));
        r
    }

    /// Whether this slot is free.
    pub fn empty(&self) -> (r: bool)
        ensures
            r == entry_is_empty(self@),
    {
        self.attr == ATTR_FREE
    }
}

/// Reading back what was stored gives the same item.
pub proof fn lemma_decode_encode(e: DirEntryView)
    requires
        e.name.len() == 15,
    ensures
        decode_entry(encode_entry(e)) == e,
        encode_entry(e).len() == 32,
{
    lemma_auto_spec_u64_to_from_le_bytes();
    let b = encode_entry(e);
    assert(b.subrange(0, 15) =~= e.name);
    assert(b.subrange(16, 24) =~= spec_u64_to_le_bytes(e.start_block));
    assert(b.subrange(24, 32) =~= spec_u64_to_le_bytes(e.length));
}

/// Storing the item read from 32 bytes gives back those bytes.
pub proof fn lemma_encode_decode(b: Seq<u8>)
    requires
        b.len() == 32,
    ensures
        encode_entry(decode_entry(b)) == b,
{
    lemma_auto_spec_u64_to_from_le_bytes();
    let s = b.subrange(16, 24);
    let l = b.subrange(24, 32);
    assert(spec_u64_to_le_bytes(spec_u64_from_le_bytes(s)) == s);
    assert(spec_u64_to_le_bytes(spec_u64_from_le_bytes(l)) == l);
    assert(encode_entry(decode_entry(b)) =~= b);
}

/// The bytes of `s` before its first zero byte.
pub open spec fn until_nul(s: Seq<u8>) -> Seq<u8>
    decreases s.len(),
{
    if s.len() == 0 || s[0] == 0 {
        Seq::empty()
    } else {
        seq![s[0]] + until_nul(s.drop_first())
    }
}

/// Each byte read as the character with that code point.
pub open spec fn latin1(s: Seq<u8>) -> Seq<char> {
    s.map_values(|b: u8| b as char)
}

/// A stored name field matches a looked-up name when the text it spells
/// (its bytes up to the first zero, each taken as one character) is the
/// text whose UTF-8 bytes are `name`.
pub open spec fn name_matches(field: Seq<u8>, name: Seq<u8>) -> bool {
    encode_utf8(latin1(until_nul(field))) == name
}

/// Every code unit lies below the surrogate range.
pub open spec fn no_surrogates(v: Seq<u16>) -> bool {
    forall|i: int| 0 <= i < v.len() ==> v[i] < 0xD800
}

/// `String::from_utf16` (std). Its documentation decodes UTF-16 and fails
/// only on invalid data; a code unit below 0xD800 is not a surrogate and
/// stands for the character with that code point. The contract states that
/// case only; what comes back for other input is left unsaid.
#[verifier::external_body]
fn string_from_utf16(v: &[u16]) -> (r: Option<String>)
    ensures
        r is Some || !no_surrogates(v@),
        r matches Some(s) ==> (no_surrogates(v@) ==> s@ == v@.map_values(|u: u16| u as char)),
{
    String::from_utf16(v).ok()
}

/// The text of a name field: its bytes before the first zero byte, each
/// taken as the character with that code point.
pub fn slice_to_string(s: &[u8]) -> (r: String)
    ensures
        r@ == latin1(until_nul(s@)),
{
    let mut v: Vec<u16> = Vec::new();
    let mut i: usize = 0;
    assert(s@.subrange(0, 0) + until_nul(s@.subrange(0, s@.len() as int)) =~= until_nul(s@)) by {
        assert(s@.subrange(0, s@.len() as int) =~= s@);
    }
    while i < s.len() && s[i] != 0
        invariant
            i <= s@.len(),
            v@.len() == i,
            forall|k: int| 0 <= k < i ==> #[trigger] v@[k] == s@[k] as u16,
            forall|k: int| 0 <= k < i ==> #[trigger] s@[k] != 0,
            until_nul(s@) == s@.subrange(0, i as int) + until_nul(s@.subrange(i as int, s@.len() as int)),
        decreases s@.len() - i,
    {
        proof {
            let rest = s@.subrange(i as int, s@.len() as int);
            assert(rest.drop_first() =~= s@.subrange(i + 1, s@.len() as int));
            assert(s@.subrange(0, i as int) + seq![s@[i as int]] =~= s@.subrange(0, i + 1));
        }
        v.push(s[i] as u16);
        assert(v@[i as int] == s@[i as int] as u16);
        i = i + 1;
    }
    proof {
        let rest = s@.subrange(i as int, s@.len() as int);
        assert(rest.len() == 0 || rest[0] == 0);
        assert(until_nul(rest) =~= Seq::<u8>::empty());
        assert(until_nul(s@) =~= s@.subrange(0, i as int));
    }
    let r = string_from_utf16(v.as_slice());
    assert(r is Some);
    let out = r.unwrap();
    assert(out@ =~= latin1(until_nul(s@)));
    out
}

} // verus!
