use trapmouse::prereq::{str_to_int, try_str_to_int, BasicMessages};

#[test]
fn digits_are_collected() {
    assert_eq!(str_to_int("123"), 123);
    assert_eq!(str_to_int("a1b2c3"), 123);
    assert_eq!(str_to_int("{12,7}"), 127);
    assert_eq!(str_to_int("0"), 0);
    assert_eq!(str_to_int("-5"), 5);
}

#[test]
fn no_digit_gives_minus_one() {
    assert_eq!(str_to_int(""), -1);
    assert_eq!(str_to_int("abc"), -1);
    assert_eq!(str_to_int("{,}"), -1);
}

#[test]
fn unicode_digits_count_by_their_low_byte() {
    // U+0663 ARABIC-INDIC DIGIT THREE is numeric; its low byte is 0x63 = 99.
    assert_eq!(str_to_int("\u{663}"), 99 - 48);
}

#[test]
fn checked_version() {
    assert_eq!(try_str_to_int("x42"), Some(42));
    assert_eq!(try_str_to_int("none"), Some(-1));
    assert_eq!(try_str_to_int("2147483647"), Some(i32::MAX));
    assert_eq!(try_str_to_int("2147483648"), None);
    // U+0F20 TIBETAN DIGIT ZERO is numeric with low byte 0x20, below '0'.
    assert_eq!(try_str_to_int("\u{f20}"), None);
}

#[test]
fn messages() {
    let m = BasicMessages::new();
    assert_eq!(m.wonmess(), "You won (against all walls), congrats!");
    assert_eq!(m.lostmess(), "You lost(in a trap the mouse game?)");
    assert_eq!(m.placewallmess(), "Place a wall(2 integers):");
    assert_eq!(m.movemousemess(), "Move mouse in one of the 6 directions[1-6]>");
}

#[test]
fn digits_are_numeric() {
    trapmouse::prereq::check_digits_numeric();
    for c in '0'..='9' {
        assert!(c.is_numeric());
    }
}

#[test]
fn non_numeric_characters_count_for_nothing() {
    let base = "31";
    for (k, c) in [(0, 'x'), (1, ' '), (2, '-'), (1, '{')] {
        let mut s = base.to_string();
        s.insert(k, c);
        assert_eq!(str_to_int(&s), str_to_int(base));
        let mut t = s.clone();
        t.remove(k);
        assert_eq!(str_to_int(&t), 31);
    }
    assert_eq!(str_to_int("x"), str_to_int(""));
}
