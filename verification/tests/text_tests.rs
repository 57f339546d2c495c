use cn_input_encode::text::{chars_of, is_whitespace, trim_bounds};

#[test]
fn whitespace_matches_std() {
    let mut c: u32 = 0;
    while c < 0x3100 {
        if let Some(ch) = char::from_u32(c) {
            assert_eq!(is_whitespace(ch), ch.is_whitespace(), "{c:x}");
        }
        c += 1;
    }
    for ch in ['\u{feff}', '\u{200b}', 'a', '中', '\u{10ffff}'] {
        assert_eq!(is_whitespace(ch), ch.is_whitespace());
    }
}

#[test]
fn chars_in_order() {
    let v = chars_of("中a b");
    assert_eq!(v, vec!['中', 'a', ' ', 'b']);
    assert!(chars_of("").is_empty());
}

#[test]
fn trim_bounds_matches_str_trim() {
    for s in ["  a b\t", "", "   ", "x", "\u{3000}中\u{3000}", "\ta\tb\t"] {
        let v = chars_of(s);
        let (lo, hi) = trim_bounds(&v);
        let t: String = v[lo..hi].iter().collect();
        assert_eq!(t, s.trim());
    }
}
