use jsoned::text::trim;

#[test]
fn trim_drops_unicode_white_space_at_both_ends() {
    assert_eq!(trim("\u{3000}\u{85} a b\t\u{2009}\n"), "a b");
    assert_eq!(trim("\u{a0}\u{1680}\u{202f}x\u{205f}\u{2028}\u{2029}"), "x");
}

#[test]
fn trim_keeps_characters_that_are_not_white_space() {
    assert_eq!(trim("\u{200b}x\u{200b}"), "\u{200b}x\u{200b}");
    assert_eq!(trim("\u{1c}y"), "\u{1c}y");
    assert_eq!(trim("   "), "");
}
