use ledger::text::{decimal, remove_char, same_text, trim};

#[test]
fn decimal_matches_to_string() {
    for n in [0i64, 7, -7, 10, 1234567890, i64::MAX, i64::MIN] {
        assert_eq!(decimal(n), n.to_string());
    }
}

#[test]
fn trim_matches_str_trim() {
    for s in ["", "  ", " a b ", "\u{3000}x\u{2028}", "\t\n-1.00\r\n", "\u{200b}x"] {
        assert_eq!(trim(s), s.trim());
    }
}

#[test]
fn remove_char_drops_every_occurrence() {
    assert_eq!(remove_char("1,234,567", ','), "1234567");
    assert_eq!(remove_char(",,", ','), "");
}

#[test]
fn same_text_compares_characters() {
    assert!(same_text("Sale", "Sale"));
    assert!(!same_text("Sale", "sale"));
    assert!(!same_text("Sale", "Sales"));
}
