use question_desk::text::{compare_text, decimal_text, is_white_space, same_text, trim_all, trim_text, Order};

#[test]
fn white_space_is_what_std_says() {
    for c in (0u32..0x11_0000).filter_map(char::from_u32) {
        assert_eq!(is_white_space(c), c.is_whitespace(), "{:?}", c);
    }
}

#[test]
fn trim_matches_std() {
    let samples = ["", "   ", "a", " a ", "\u{3000}x y\u{2029}", "\t\n é \r", "\u{200b}z\u{200b}", " \u{85}mid dle\u{a0} "];
    for s in samples {
        assert_eq!(trim_text(s), s.trim(), "{:?}", s);
    }
}

#[test]
fn trim_all_drops_blank_texts() {
    let v = vec![" a ".to_string(), " ".to_string(), "".to_string(), "b c".to_string()];
    assert_eq!(trim_all(&v), vec!["a".to_string(), "b c".to_string()]);
}

#[test]
fn decimal_digits() {
    assert_eq!(decimal_text(0), "0");
    assert_eq!(decimal_text(7), "7");
    assert_eq!(decimal_text(10), "10");
    assert_eq!(decimal_text(2024), "2024");
    assert_eq!(decimal_text(u128::MAX), u128::MAX.to_string());
}

#[test]
fn compare_matches_str_order() {
    let samples = ["", "a", "b", "ab", "aé", "q_20240101_000000", "q_20240101_000000_2", "Z", "é"];
    for a in samples {
        for b in samples {
            let want = match a.cmp(b) {
                std::cmp::Ordering::Less => Order::Less,
                std::cmp::Ordering::Equal => Order::Equal,
                std::cmp::Ordering::Greater => Order::Greater,
            };
            assert_eq!(compare_text(a, b), want, "{:?} {:?}", a, b);
            assert_eq!(same_text(a, b), a == b);
        }
    }
}
