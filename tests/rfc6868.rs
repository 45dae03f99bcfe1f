use contentline::rfc6868::{escape_param_value, unescape_param_value};

#[test]
fn encode() {
    assert_eq!(escape_param_value(""), "");
    assert_eq!(escape_param_value("^"), "^^");
    assert_eq!(escape_param_value("\""), "^'");
    assert_eq!(escape_param_value("\n"), "^n");
    assert_eq!(escape_param_value("\r\n"), "^n");
    assert_eq!(escape_param_value("\r\n\r\n"), "^n^n");
    assert_eq!(escape_param_value("\r\r\n"), "^n^n");
    assert_eq!(escape_param_value("\r\n\n"), "^n^n");
    assert_eq!(escape_param_value("^m"), "^^m");
    assert_eq!(escape_param_value("^n"), "^^n");
    assert_eq!(escape_param_value("^\""), "^^^'");
    assert_eq!(escape_param_value("^\"^\n\"^N^"), "^^^'^^^n^'^^N^^");
    assert_eq!(escape_param_value("^^"), "^^^^");
    assert_eq!(escape_param_value("^^n"), "^^^^n");
    assert_eq!(escape_param_value("^^\n"), "^^^^^n");
}

#[test]
fn decode() {
    assert_eq!(unescape_param_value(""), "");
    assert_eq!(unescape_param_value("^^"), "^");
    assert_eq!(unescape_param_value("^'"), "\"");
    assert_eq!(unescape_param_value("^n"), "\n");
    assert_eq!(unescape_param_value("^N"), "\n");
    assert_eq!(unescape_param_value("^m"), "^m");
    assert_eq!(unescape_param_value("^^n"), "^n");
    assert_eq!(unescape_param_value("^^^'"), "^\"");
    assert_eq!(unescape_param_value("^^^'^^^n^'^^N^"), "^\"^\n\"^N^");
    assert_eq!(unescape_param_value("^^^^"), "^^");
    assert_eq!(unescape_param_value("^^^^n"), "^^n");
    assert_eq!(unescape_param_value("^^^^^n"), "^^\n");
}

#[test]
fn escape_round_trip_examples() {
    for s in ["", "plain", "a^b", "^n", "quote\"d", "line\nbreak", "^^'\n\"\u{2764}", "\t^N"] {
        assert_eq!(unescape_param_value(&escape_param_value(s)), s);
    }
}

#[test]
fn escape_keeps_non_ascii() {
    assert_eq!(escape_param_value("\u{2764}^\u{e9}"), "\u{2764}^^\u{e9}");
    assert_eq!(unescape_param_value("\u{2764}^'\u{e9}"), "\u{2764}\"\u{e9}");
}

#[test]
fn carriage_return_does_not_round_trip() {
    assert_eq!(unescape_param_value(&escape_param_value("a\r\nb")), "a\nb");
    assert_eq!(unescape_param_value(&escape_param_value("a\rb")), "a\nb");
}

#[test]
fn unescape_lone_caret_at_end() {
    assert_eq!(unescape_param_value("abc^"), "abc^");
    assert_eq!(unescape_param_value("^x^"), "^x^");
}
