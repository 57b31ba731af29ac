use todo_tui::lines::split_lines;

#[test]
fn split_plain_lines() {
    assert_eq!(split_lines("a\nb\nc"), vec!["a", "b", "c"]);
}

#[test]
fn split_empty_text_has_no_lines() {
    assert_eq!(split_lines(""), Vec::<&str>::new());
}

#[test]
fn split_trailing_newline_opens_no_line() {
    assert_eq!(split_lines("a\n"), vec!["a"]);
}

#[test]
fn split_keeps_interior_empty_lines() {
    assert_eq!(split_lines("a\n\nb"), vec!["a", "", "b"]);
}

#[test]
fn split_drops_carriage_return_of_crlf() {
    assert_eq!(split_lines("ab\r\ncd"), vec!["ab", "cd"]);
    assert_eq!(split_lines("ab\r\n"), vec!["ab"]);
}

#[test]
fn split_keeps_bare_trailing_carriage_return() {
    // only the carriage return of a "\r\n" terminator is dropped
    assert_eq!(split_lines("ab\r"), vec!["ab\r"]);
}
