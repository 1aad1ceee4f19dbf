use yam::quote;

#[test]
fn escape_test() {
    let input: String = ['\\', 's', 'e', 'x', '"', '\\', '\t'].iter().collect();
    let output: String = ['"', '\\', '\\', 's', 'e', 'x', '\\', '"', '\\', '\\', '\\', 't', '"']
        .iter()
        .collect();
    assert_eq!(quote(&input), output);
}

#[test]
fn quote_escapes_in_order() {
    assert_eq!(quote("\t\n\"\\"), "\"\\t\\n\\\"\\\\\"");
}

#[test]
fn quote_empty() {
    assert_eq!(quote(""), "\"\"");
}

#[test]
fn quote_short_escapes() {
    assert_eq!(quote("\u{8}\u{c}\r"), "\"\\b\\f\\r\"");
}

#[test]
fn quote_other_controls_as_unicode() {
    assert_eq!(quote("a\u{1}b"), "\"a\\u0001b\"");
    assert_eq!(quote("\u{1f}\u{7f}\u{9f}"), "\"\\u001f\\u007f\\u009f\"");
}

#[test]
fn quote_keeps_printable_text() {
    assert_eq!(quote("héllo wörld ✓ /"), "\"héllo wörld ✓ /\"");
    assert_eq!(quote("\u{a0}"), "\"\u{a0}\"");
}
