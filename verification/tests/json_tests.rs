use rust_blockchain::json::push_json_string;

fn quoted(text: &str) -> Vec<u8> {
    let mut out = Vec::new();
    push_json_string(&mut out, text);
    out
}

#[test]
fn plain_strings_are_quoted() {
    assert_eq!(quoted(""), b"\"\"");
    assert_eq!(quoted("abc"), b"\"abc\"");
}

#[test]
fn special_characters_are_escaped() {
    assert_eq!(quoted("a\"b"), b"\"a\\\"b\"");
    assert_eq!(quoted("\\"), b"\"\\\\\"");
    assert_eq!(quoted("\u{8}\t\n\u{c}\r"), b"\"\\b\\t\\n\\f\\r\"");
    assert_eq!(quoted("\u{0}\u{1f}\u{1b}"), b"\"\\u0000\\u001f\\u001b\"");
    assert_eq!(quoted("/\u{7f}"), "\"/\u{7f}\"".as_bytes());
}

#[test]
fn escaping_agrees_with_serde_json() {
    let samples = [
        "", "plain", "quote\"inside", "back\\slash", "tab\tnew\nline", "\u{0}\u{1}\u{1f}\u{20}",
        "\u{e9}t\u{e9} \u{1f600}", "\u{7f}\u{80}", "\r\u{c}\u{8}\u{b}",
    ];
    for text in samples {
        assert_eq!(quoted(text), serde_json::to_string(text).unwrap().into_bytes(), "{:?}", text);
    }
}
