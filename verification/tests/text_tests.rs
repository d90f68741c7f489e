use ephmem::text::{
    chars_lt, chars_of, decimal_string, is_whitespace, parse_decimal, parse_u32, parse_usize, str_contains, str_eq, trim_range,
};

#[test]
fn parse_u32_like_from_str() {
    for s in ["0", "7", "+7", "007", "4294967295", "", "+", "-1", "4294967296", "12a", " 1", "99999999999"] {
        assert_eq!(parse_u32(s), s.parse::<u32>().ok(), "{}", s);
    }
}

#[test]
fn decimal_round_trip() {
    for n in [0u32, 5, 10, 99, 100, 123456, u32::MAX] {
        let s = decimal_string(n);
        assert_eq!(s, n.to_string());
        assert_eq!(parse_u32(&s), Some(n));
    }
}

#[test]
fn string_helpers() {
    assert!(str_eq("abc", "abc"));
    assert!(!str_eq("abc", "abd"));
    assert!(!str_eq("ab", "abc"));
    assert!(str_contains("child<cxl-type3>", "cxl-type3"));
    assert!(str_contains("abc", ""));
    assert!(!str_contains("cxl-type", "cxl-type3"));
    assert!(!str_contains("", "a"));
}

#[test]
fn dictionary_order_of_paths() {
    let paths = ["", "/tmp/ephmem/3.qmp", "/tmp/ephmem/a.qmp", "/tmp/ephmem/a.qmp2", "/tmp/ephmem/b.qmp", "/tmp/\u{e9}"];
    for a in paths {
        for b in paths {
            assert_eq!(chars_lt(&chars_of(a), &chars_of(b)), a < b, "{} {}", a, b);
        }
    }
}

#[test]
fn white_space_and_trimming() {
    for c in ['\t', '\n', '\r', ' ', '\u{85}', '\u{a0}', '\u{2003}', '\u{3000}', 'a', '0', '\u{200b}'] {
        assert_eq!(is_whitespace(c), c.is_whitespace(), "{:?}", c);
    }
    for s in ["  a b \n", "", "   ", "x", "\u{2003}y\u{2003}"] {
        let cs = chars_of(s);
        let (lo, hi) = trim_range(&cs);
        let trimmed: String = cs[lo..hi].iter().collect();
        assert_eq!(trimmed, s.trim());
    }
}

#[test]
fn parse_usize_like_from_str() {
    for s in ["0", "+5", "18446744073709551615", "18446744073709551616", "", "+", "-3", " 1", "12x", "0009"] {
        assert_eq!(parse_usize(s), s.parse::<usize>().ok(), "{}", s);
    }
    assert_eq!(parse_decimal("300", 255), None);
    assert_eq!(parse_decimal("255", 255), Some(255));
}
