use discord_utils::split_trim;

#[test]
fn test_split_trim() {
    assert_eq!(split_trim("hestetest"), ("", "hestetest", ""));
    assert_eq!(
        split_trim("   hest  \n\n asdg \t\n"),
        ("   ", "hest  \n\n asdg", " \t\n")
    );
    assert_eq!(split_trim("\n"), ("", "", "\n"));
    assert_eq!(split_trim(" "), ("", "", " "));
}

#[test]
fn split_trim_no_surrounding_whitespace() {
    assert_eq!(split_trim("hello"), ("", "hello", ""));
}

#[test]
fn split_trim_mixed_whitespace() {
    assert_eq!(
        split_trim("   hi  \n\n there \t\n"),
        ("   ", "hi  \n\n there", " \t\n")
    );
}

#[test]
fn split_trim_whitespace_only_goes_to_trailing() {
    assert_eq!(split_trim("\n"), ("", "", "\n"));
    assert_eq!(split_trim(""), ("", "", ""));
    assert_eq!(split_trim(" \t \r\n "), ("", "", " \t \r\n "));
}

#[test]
fn split_trim_round_trip() {
    let cases = [
        "",
        "a",
        " a ",
        "\t\tmiddle has  spaces\t\t",
        "no-trim-at-all",
        "   leading only",
        "trailing only \n",
        " \u{2003}wide\u{2003} ",
    ];
    for t in cases {
        let (leading, core, trailing) = split_trim(t);
        let mut joined = String::new();
        joined.push_str(leading);
        joined.push_str(core);
        joined.push_str(trailing);
        assert_eq!(joined, t);
    }
}

#[test]
fn split_trim_unicode_whitespace() {
    // U+2003 EM SPACE carries the White_Space property.
    assert_eq!(split_trim("\u{2003}x\u{2003}"), ("\u{2003}", "x", "\u{2003}"));
    // U+00A0 NO-BREAK SPACE does too.
    assert_eq!(split_trim("\u{a0}core\u{a0}\u{a0}"), ("\u{a0}", "core", "\u{a0}\u{a0}"));
}
