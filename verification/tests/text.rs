use mailarch::text::{contains, decimal_string, hex_string, join, parse_number, split_at_each};

fn split(s: &str, delimiter: char) -> Vec<String> {
    split_at_each(s, delimiter).into_iter().map(|piece| piece.into_iter().collect()).collect()
}

#[test]
fn decimal_numerals() {
    assert_eq!(decimal_string(0), "0");
    assert_eq!(decimal_string(9), "9");
    assert_eq!(decimal_string(10), "10");
    assert_eq!(decimal_string(1700000000), "1700000000");
    assert_eq!(decimal_string(u64::MAX), "18446744073709551615");
}

#[test]
fn numbers_read_as_std_reads_them() {
    let texts = [
        "", "+", "-", "0", "7", "+7", "-7", "++7", "007", " 7", "7 ", "7a", "0x7", "+0012",
        "18446744073709551615", "18446744073709551616", "99999999999999999999999",
        "000000000000000000000000000001", ".mh_sequences", "\u{663}",
    ];
    for text in texts {
        assert_eq!(parse_number(text), text.parse::<u64>().ok(), "{text:?}");
    }
}

#[test]
fn decimal_reads_back() {
    for n in [0, 1, 9, 10, 99, 100, 12345678901234567890, u64::MAX] {
        assert_eq!(parse_number(&decimal_string(n)), Some(n));
    }
}

#[test]
fn hexadecimal_form() {
    assert_eq!(hex_string(&[]), "");
    assert_eq!(hex_string(&[0x00, 0x0f, 0xa0, 0xff, 0x9a]), "000fa0ff9a");
}

#[test]
fn searching_text() {
    assert!(contains("1700000000.abc:2,S", "abc"));
    assert!(contains("abc", "abc"));
    assert!(contains("aabc", "abc"));
    assert!(contains("", ""));
    assert!(contains("abc", ""));
    assert!(!contains("ab", "abc"));
    assert!(!contains("abxabd", "abc"));
}

#[test]
fn splitting_and_joining() {
    assert_eq!(split("", '/'), vec![""]);
    assert_eq!(split("a", '/'), vec!["a"]);
    assert_eq!(split("/a//b/", '/'), vec!["", "a", "", "b", ""]);
    for text in ["", "a", "a/b", "/a//b/", "//"] {
        assert_eq!(join(&split(text, '/'), '/'), text);
    }
    assert_eq!(join(&vec![], ','), "");
    let parts: Vec<String> = vec!["x".to_string(), "".to_string(), "yz".to_string()];
    assert_eq!(join(&parts, ','), "x,,yz");
    assert_eq!(split("x,,yz", ','), parts);
}
