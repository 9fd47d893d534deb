//! Reading the image size given on the command line.
use vstd::prelude::*;
use vstd::utf8::encode_utf8;

verus! {

/// An ASCII decimal digit.
pub open spec fn is_digit(b: u8) -> bool {
    0x30 <= b <= 0x39
}

/// Every byte is a decimal digit.
pub open spec fn all_digits(s: Seq<u8>) -> bool {
    forall|i: int| 0 <= i < s.len() ==> #[trigger] is_digit(s[i])
}

/// The number that the decimal digits `s` spell (0 for no digits).
pub open spec fn decimal_value(s: Seq<u8>) -> nat
    decreases s.len(),
{
    if s.len() == 0 {
        0
    } else {
        decimal_value(s.drop_last()) * 10 + (s.last() - 0x30) as nat
    }
}

/// A longer run of digits never spells a smaller number.
pub proof fn lemma_decimal_prefix_monotone(s: Seq<u8>, i: int, j: int)
    requires
        all_digits(s),
        0 <= i <= j <= s.len(),
    ensures
        decimal_value(s.subrange(0, i)) <= decimal_value(s.subrange(0, j)),
    decreases j - i,
{
    if i < j {
        lemma_decimal_prefix_monotone(s, i, j - 1);
        let t = s.subrange(0, j);
        assert(t.drop_last() =~= s.subrange(0, j - 1));
        assert(is_digit(s[j - 1]));
    }
}

/// Ten to the power `n`.
pub open spec fn ten_to(n: nat) -> nat
    decreases n,
{
    if n == 0 {
        1
    } else {
        10 * ten_to((n - 1) as nat)
    }
}

/// The value of digits written one after the other: the first digits
/// count `10^|b|` times their own value, then the value of `b` is added.
/// So leading zeros do not change a number.
pub proof fn lemma_decimal_concat(a: Seq<u8>, b: Seq<u8>)
    ensures
        decimal_value(a + b) == decimal_value(a) * ten_to(b.len()) + decimal_value(b),
    decreases b.len(),
{
    if b.len() == 0 {
        assert(a + b =~= a);
        assert(ten_to(0) == 1);
        assert(decimal_value(b) == 0);
    } else {
        let b1 = b.drop_last();
        lemma_decimal_concat(a, b1);
        assert((a + b).drop_last() =~= a + b1);
        assert((a + b).last() == b.last());
        let x = decimal_value(a);
        let y = decimal_value(b1);
        let q = ten_to(b1.len());
        assert(ten_to(b.len()) == 10 * q);
        let dl = (b.last() - 0x30) as nat;
        assert(decimal_value(a + b) == decimal_value(a + b1) * 10 + dl);
        assert(decimal_value(b) == y * 10 + dl);
        assert((x * q + y) * 10 == x * (10 * q) + y * 10) by (nonlinear_arith);
    }
}

/// The decimal digits of `n`, as a number is written: no leading zero,
/// and the single digit `0` for zero.
pub open spec fn decimal_digits(n: nat) -> Seq<u8>
    decreases n,
{
    if n < 10 {
        seq![(0x30 + n) as u8]
    } else {
        decimal_digits(n / 10).push((0x30 + n % 10) as u8)
    }
}

/// A number's decimal digits are digits and spell the number back.
pub proof fn lemma_decimal_digits_read_back(n: nat)
    ensures
        all_digits(decimal_digits(n)),
        decimal_value(decimal_digits(n)) == n,
    decreases n,
{
    if n < 10 {
        let s = decimal_digits(n);
        assert(s.drop_last() =~= Seq::<u8>::empty());
        assert(decimal_value(s.drop_last()) == 0);
        assert(s.last() == 0x30 + n);
        assert(is_digit(s[0]));
    } else {
        lemma_decimal_digits_read_back(n / 10);
        let s = decimal_digits(n);
        let s1 = decimal_digits(n / 10);
        assert(s.drop_last() =~= s1);
        assert forall|i: int| 0 <= i < s.len() implies #[trigger] is_digit(s[i]) by {
            if i < s1.len() {
                assert(s[i] == s1[i]);
            }
        }
        assert(s.last() == 0x30 + n % 10);
        assert(decimal_value(s) == decimal_value(s1) * 10 + (n % 10));
        assert(n == (n / 10) * 10 + n % 10);
    }
}

/// Reading a number's text back: a text whose bytes are the decimal digits
/// of a number that fits a `usize` meets what `from_str` requires, and
/// `from_str` gives the number back.
pub proof fn lemma_number_text_round_trip(s: Seq<char>, n: nat)
    requires
        encode_utf8(s) == decimal_digits(n),
        n <= usize::MAX,
    ensures
        all_digits(encode_utf8(s)),
        decimal_value(encode_utf8(s)) <= usize::MAX,
        decimal_value(encode_utf8(s)) == n,
{
    lemma_decimal_digits_read_back(n);
}

/// The number that the decimal digits of `s` spell. The text must consist
/// of decimal digits and spell a number that fits a `usize`.
pub fn from_str(s: &str) -> (r: usize)
    requires
        all_digits(encode_utf8(s@)),
        decimal_value(encode_utf8(s@)) <= usize::MAX,
    ensures
        r == decimal_value(encode_utf8(s@)),
{
    let b = s.as_bytes();
    let ghost bs = b@;
    assert(bs == encode_utf8(s@));
    let mut rt: usize = 0;
    let mut i: usize = 0;
    assert(bs.subrange(0, bs.len() as int) =~= bs);
    while i < b.len()
        invariant
            bs == b@,
            all_digits(bs),
            decimal_value(bs) <= usize::MAX,
            i <= bs.len(),
            rt == decimal_value(bs.subrange(0, i as int)),
        decreases bs.len() - i,
    {
        proof {
            let t = bs.subrange(0, i + 1);
            assert(t.drop_last() =~= bs.subrange(0, i as int));
            assert(is_digit(bs[i as int]));
            assert(decimal_value(t) == decimal_value(bs.subrange(0, i as int)) * 10 + (bs[i as int] - 0x30) as nat);
            lemma_decimal_prefix_monotone(bs, i + 1, bs.len() as int);
            assert(bs.subrange(0, bs.len() as int) =~= bs);
        }
        rt = rt * 10;
        let c = b[i];
        rt = rt + (c - 0x30) as usize;
        i = i + 1;
    }
    rt
}

/// The number that `s` spells, or `None` when `s` holds something other
/// than decimal digits or spells a number too large for a `usize`.
pub fn try_from_str(s: &str) -> (r: Option<usize>)
    ensures
        match r {
            Some(v) => all_digits(encode_utf8(s@)) && decimal_value(encode_utf8(s@)) <= usize::MAX
                && v == decimal_value(encode_utf8(s@)),
            None => !all_digits(encode_utf8(s@)) || decimal_value(encode_utf8(s@)) > usize::MAX,
        },
{
    let b = s.as_bytes();
    let ghost bs = b@;
    assert(bs == encode_utf8(s@));
    let mut i: usize = 0;
    while i < b.len()
        invariant
            bs == b@,
            bs == encode_utf8(s@),
            i <= bs.len(),
            forall|k: int| 0 <= k < i ==> #[trigger] is_digit(bs[k]),
        decreases bs.len() - i,
    {
        if b[i] < 0x30 || b[i] > 0x39 {
            assert(!is_digit(bs[i as int]));
            return None;
        }
        i = i + 1;
    }
    assert(all_digits(bs));
    let mut rt: usize = 0;
    let mut i: usize = 0;
    while i < b.len()
        invariant
            bs == b@,
            bs == encode_utf8(s@),
            all_digits(bs),
            i <= bs.len(),
            rt == decimal_value(bs.subrange(0, i as int)),
        decreases bs.len() - i,
    {
        proof {
            let t = bs.subrange(0, i + 1);
            assert(t.drop_last() =~= bs.subrange(0, i as int));
            assert(is_digit(bs[i as int]));
            assert(decimal_value(t) == decimal_value(bs.subrange(0, i as int)) * 10 + (bs[i as int] - 0x30) as nat);
            lemma_decimal_prefix_monotone(bs, i + 1, bs.len() as int);
            assert(bs.subrange(0, bs.len() as int) =~= bs);
        }
        let d = (b[i] - 0x30) as usize;
        if rt > (usize::MAX - d) / 10 {
            return None;
        }
        rt = rt * 10 + d;
        i = i + 1;
    }
    assert(bs.subrange(0, bs.len() as int) =~= bs);
    Some(from_str(s))
}

} // verus!
