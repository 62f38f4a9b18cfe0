use rusdis::text::same_text;

#[test]
fn same_text_compares_character_by_character() {
    assert!(same_text("", ""));
    assert!(same_text("PING", "PING"));
    assert!(!same_text("PING", "PINg"));
    assert!(!same_text("PING", "PIN"));
    assert!(!same_text("PIN", "PING"));
    assert!(same_text("cl\u{e9}", "cl\u{e9}"));
    assert!(!same_text("cl\u{e9}", "cle"));
}
