use image_maker::number::{from_str, try_from_str};

#[test]
fn from_str_reads_decimal() {
    assert_eq!(from_str("32"), 32);
    assert_eq!(from_str("0"), 0);
    assert_eq!(from_str(""), 0);
    assert_eq!(from_str("007"), 7);
    assert_eq!(from_str("18446744073709551615"), usize::MAX);
}

#[test]
fn try_from_str_rejects_other_text() {
    assert_eq!(try_from_str("32"), Some(32));
    assert_eq!(try_from_str("3a"), None);
    assert_eq!(try_from_str("-1"), None);
    assert_eq!(try_from_str(" 1"), None);
    assert_eq!(try_from_str("18446744073709551616"), None);
    assert_eq!(try_from_str("99999999999999999999"), None);
}

#[test]
fn from_str_reads_back_a_number_text() {
    for n in [0usize, 1, 9, 10, 99, 100, 4096, 123456789, usize::MAX - 1, usize::MAX] {
        assert_eq!(from_str(&n.to_string()), n);
        assert_eq!(try_from_str(&n.to_string()), Some(n));
    }
}

#[test]
fn from_str_splits_over_joined_digits() {
    let cases = [("12", "345"), ("0", "7"), ("", "42"), ("42", ""), ("9", "000"), ("000", "9")];
    for (a, b) in cases {
        let joined = format!("{}{}", a, b);
        assert_eq!(from_str(&joined), from_str(a) * 10usize.pow(b.len() as u32) + from_str(b));
    }
    assert_eq!(from_str("0012"), 12);
}
