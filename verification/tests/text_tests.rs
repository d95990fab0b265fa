use trapmouse::text::{
    chars_of, is_white_char, push_decimal, read_int, split_words, str_contains, str_eq,
    trim_chars,
};

fn int_to_string(x: i32) -> String {
    let mut s = String::new();
    push_decimal(&mut s, x);
    s
}

fn trim_str(s: &str) -> String {
    trim_chars(&chars_of(s)).into_iter().collect()
}

#[test]
fn whitespace_matches_std_for_every_char() {
    for code in 0u32..=0x10FFFF {
        if let Some(c) = char::from_u32(code) {
            assert_eq!(is_white_char(c), c.is_whitespace(), "char {:?}", c);
        }
    }
}

#[test]
fn int_to_string_matches_std() {
    let samples = [0, 1, -1, 9, 10, 11, 99, 100, -100, 12345, -98765, i32::MAX, i32::MIN, 6, 11];
    for x in samples {
        assert_eq!(int_to_string(x), x.to_string());
    }
    for x in -2000..2000 {
        assert_eq!(int_to_string(x), x.to_string());
    }
}

#[test]
fn read_int_matches_std_parse() {
    let samples = [
        "", " ", "0", "7", "-7", "+7", "-", "+", "--1", "+-1", "12a", "a12", " 42 ", "\t-3\n",
        "2147483647", "2147483648", "-2147483648", "-2147483649", "99999999999999999999",
        "0000012", "-000", "1 2", "٣", "\u{a0}5\u{3000}",
    ];
    for s in samples {
        assert_eq!(read_int(s), s.trim().parse::<i32>().ok(), "input {:?}", s);
    }
}

#[test]
fn decimal_reads_back() {
    for x in [0, 5, -5, 6, 11, 1234, -1234, i32::MAX, i32::MIN] {
        assert_eq!(read_int(&int_to_string(x)), Some(x));
    }
}

#[test]
fn trim_matches_std() {
    for s in ["", "  ", " a ", "\n\tab c\r\n", "x", "\u{2003}y\u{85}", "a b"] {
        assert_eq!(trim_str(s), s.trim());
    }
}

#[test]
fn split_words_matches_std() {
    for s in ["", "   ", "create room1", "  join   r2  ", "a\tb\nc", "x\u{a0}y", "one"] {
        let ws = split_words(&chars_of(s));
        let got: Vec<String> = ws.iter().map(|w| w.iter().collect()).collect();
        let want: Vec<String> = s.split_whitespace().map(|w| w.to_string()).collect();
        assert_eq!(got, want, "input {:?}", s);
    }
}

#[test]
fn contains_and_equality() {
    assert!(str_contains("please create it", "create"));
    assert!(str_contains("abc", ""));
    assert!(!str_contains("crate", "create"));
    assert!(!str_contains("ab", "abc"));
    assert!(str_eq("join", "join"));
    assert!(!str_eq("join", "joint"));
}
