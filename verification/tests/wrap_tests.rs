use todo_tui::wrap::wrap_words;

fn owned(v: &[&str]) -> Vec<String> {
    v.iter().map(|s| s.to_string()).collect()
}

#[test]
fn scenario_word_wrap() {
    // whitespace stays attached to the pending line it was appended to
    let lines = wrap_words("A wrap occurs", (5, 5));
    assert_eq!(lines, owned(&["A ", "wrap ", "occur", "s"]));
}

#[test]
fn wrap_empty_text() {
    assert_eq!(wrap_words("", (5, 5)), Vec::<String>::new());
}

#[test]
fn wrap_degenerate_geometry() {
    assert_eq!(wrap_words("hello", (0, 3)), Vec::<String>::new());
    assert_eq!(wrap_words("hello", (3, 0)), Vec::<String>::new());
}

#[test]
fn wrap_exact_width_token_fits() {
    assert_eq!(wrap_words("abc", (3, 2)), owned(&["abc"]));
}

#[test]
fn wrap_overlong_token_is_hard_split() {
    assert_eq!(wrap_words("abcdefgh", (3, 5)), owned(&["abc", "def", "gh"]));
}

#[test]
fn wrap_overlong_token_exact_multiple() {
    assert_eq!(wrap_words("abcdef", (3, 5)), owned(&["abc", "def"]));
}

#[test]
fn wrap_truncates_on_last_line() {
    // the second (last) line is force-extended to width and cut there
    assert_eq!(wrap_words("aaa bbb ccc", (3, 2)), owned(&["aaa", " bb"]));
}

#[test]
fn wrap_stops_at_height_across_logical_lines() {
    assert_eq!(wrap_words("aa\nbb\ncc", (2, 2)), owned(&["aa", "bb"]));
}

#[test]
fn wrap_skips_empty_logical_lines() {
    assert_eq!(wrap_words("a\n\nb", (5, 5)), owned(&["a", "b"]));
}

#[test]
fn wrap_pending_is_empty_after_exact_split() {
    // "cdefgh" splits into two full chunks and leaves no remainder, so the
    // following tokens open a fresh pending line instead of truncating
    assert_eq!(
        wrap_words("ab cdefgh i", (3, 4)),
        owned(&["ab ", "cde", "fgh", " i"])
    );
}

#[test]
fn wrap_height_and_width_bounds() {
    let lines = wrap_words("the quick brown fox jumps over the lazy dog", (4, 3));
    assert!(lines.len() <= 3);
    for line in &lines {
        assert!(line.len() <= 4);
        assert!(!line.is_empty());
    }
}

#[test]
fn wrap_concatenation_rebuilds_prefix() {
    let text = "one two three";
    let lines = wrap_words(text, (4, 10));
    assert_eq!(lines, owned(&["one ", "two ", "thre", "e"]));
    let joined: String = lines.concat();
    assert_eq!(joined, text);
}
