use todo_tui::tokens::tokenize_ascii;

#[test]
fn tokenize_alternating_runs() {
    assert_eq!(
        tokenize_ascii("A wrap occurs"),
        vec![(0, 1), (1, 2), (2, 6), (6, 7), (7, 13)]
    );
}

#[test]
fn tokenize_empty() {
    assert_eq!(tokenize_ascii(""), Vec::<(usize, usize)>::new());
}

#[test]
fn tokenize_leading_whitespace() {
    assert_eq!(tokenize_ascii("  ab"), vec![(0, 2), (2, 4)]);
}

#[test]
fn tokenize_trailing_whitespace() {
    assert_eq!(tokenize_ascii("ab  "), vec![(0, 2), (2, 4)]);
}

#[test]
fn tokenize_single_char() {
    assert_eq!(tokenize_ascii("x"), vec![(0, 1)]);
}

#[test]
fn tokenize_mixed_whitespace() {
    // tabs and spaces belong to the same whitespace run
    assert_eq!(tokenize_ascii("a \t b"), vec![(0, 1), (1, 4), (4, 5)]);
}
