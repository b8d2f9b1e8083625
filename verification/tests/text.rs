use voxtype_benchmark::text::{
    first_field, is_blank, is_whitespace, join_from, split_lines, strip_ansi, substring, to_chars,
    trim,
};

#[test]
fn white_space_is_that_of_unicode() {
    for code in 0..=0x10ffffu32 {
        if let Some(c) = char::from_u32(code) {
            assert_eq!(is_whitespace(c), c.is_whitespace(), "{:x}", code);
        }
    }
}

#[test]
fn trim_takes_off_both_ends() {
    for s in ["", " ", "a", "  a b \n", "\u{3000}x\u{a0}", "\t\r\n", "no-trim"] {
        assert_eq!(trim(s), s.trim());
        assert_eq!(is_blank(s), s.trim().is_empty());
    }
}

#[test]
fn lines_end_with_line_feeds() {
    for s in [
        "",
        "\n",
        "a",
        "a\n",
        "a\n\n",
        "a\r\nb\r\n",
        "a\rb\n\r",
        "\r\n\r\n",
        "x\n\ny\nz",
        "a\r\r\nb",
    ] {
        let expected: Vec<String> = s.lines().map(str::to_string).collect();
        assert_eq!(split_lines(s), expected, "{:?}", s);
    }
}

#[test]
fn first_field_skips_white_space() {
    for s in ["", "   ", "0.52 0.58 0.59 1/467 2181\n", "\t a b", "one"] {
        assert_eq!(first_field(s).as_deref(), s.split_whitespace().next());
    }
}

#[test]
fn colours_are_stripped() {
    assert_eq!(strip_ansi("\u{1b}[2mdim\u{1b}[0m \u{1b}[1;32m INFO\u{1b}[0m x"), "dim  INFO x");
    assert_eq!(strip_ansi("plain [text] ~"), "plain [text] ~");
    assert_eq!(strip_ansi("cut \u{1b}[38;5"), "cut ");
    assert_eq!(strip_ansi("lone \u{1b}x\u{1b}"), "lone x");
}

#[test]
fn stripping_twice_changes_nothing() {
    let s = "\u{1b}\u{1b}[2m[0m a \u{1b}[K b";
    let once = strip_ansi(s);
    assert!(!once.contains('\u{1b}'));
    assert_eq!(strip_ansi(&once), once);
}

#[test]
fn parts_are_joined_by_spaces() {
    let parts: Vec<String> = vec!["a".to_string(), "".to_string(), "b c".to_string()];
    assert_eq!(join_from(&parts, 0), "a  b c");
    assert_eq!(join_from(&parts, 1), " b c");
    assert_eq!(join_from(&parts, 3), "");
}

#[test]
fn substrings_go_by_characters() {
    let chars = to_chars("aé京b");
    assert_eq!(chars, vec!['a', 'é', '京', 'b']);
    assert_eq!(substring(&chars, 1, 3), "é京");
    assert_eq!(substring(&chars, 2, 2), "");
}
