use todo_tui::cursor::Rect;
use todo_tui::widget::{InputField, Wrap};

fn area() -> Rect {
    Rect { x: 1, y: 1, width: 5, height: 5 }
}

#[test]
fn get_cursor_pos() {
    let area = area();
    let input = InputField::new(String::from("A wrap occurs"), Wrap::Word);
    assert_eq!(input.get_cursor_at(area, 0), (1, 1));
    assert_eq!(input.get_cursor_at(area, 6), (5, 2));
    assert_eq!(input.get_cursor_at(area, 12), (1, 4));
    assert_eq!(input.get_cursor_at(area, usize::MAX), (1, 4));
    let input = InputField::new(String::from(""), Wrap::Word);
    assert_eq!(input.get_cursor_at(area, 1), (1, 1));
}

#[test]
fn cursor_steps_through_the_layout() {
    // layout: ["A ", "wrap ", "occur", "s"]; consecutive offsets move one
    // column right or to the start of the next physical line
    let area = area();
    let input = InputField::new(String::from("A wrap occurs"), Wrap::Word);
    assert_eq!(input.get_cursor_at(area, 1), (2, 1));
    assert_eq!(input.get_cursor_at(area, 2), (1, 2));
    assert_eq!(input.get_cursor_at(area, 3), (2, 2));
    assert_eq!(input.get_cursor_at(area, 7), (1, 3));
    assert_eq!(input.get_cursor_at(area, 11), (5, 3));
    assert_eq!(input.get_cursor_at(area, 12), (1, 4));
}

#[test]
fn cursor_clamps_degenerate_geometry_to_origin() {
    let area = Rect { x: 2, y: 3, width: 0, height: 0 };
    let input = InputField::new(String::from("abc"), Wrap::Word);
    // the layout is empty, so the fallback clamps to the origin
    assert_eq!(input.get_cursor_at(area, 1), (2, 3));
}

#[test]
fn lines_word_wrap() {
    let input = InputField::new(String::from("A wrap occurs"), Wrap::Word);
    let lines = input.lines(area());
    assert_eq!(lines, vec!["A ", "wrap ", "occur", "s"]);
}

#[test]
fn lines_no_wrap_splits_on_newlines() {
    let input = InputField::new(String::from("a\nb\r\nc\n"), Wrap::NoWrap);
    let lines = input.lines(area());
    assert_eq!(lines, vec!["a", "b", "c"]);
}

#[test]
fn no_wrap_cursor_walks_logical_lines() {
    let input = InputField::new(String::from("ab\ncd"), Wrap::NoWrap);
    // logical lines "ab" and "cd"; the newline itself occupies no cell, so
    // offsets past it land one cell earlier, and the offset of the last
    // character walks off the layout to the bottom-right fallback
    assert_eq!(input.get_cursor_at(area(), 0), (1, 1));
    assert_eq!(input.get_cursor_at(area(), 1), (2, 1));
    assert_eq!(input.get_cursor_at(area(), 2), (1, 2));
    assert_eq!(input.get_cursor_at(area(), 3), (2, 2));
    assert_eq!(input.get_cursor_at(area(), 4), (5, 5));
}

#[test]
fn setters_replace_buffer_and_mode() {
    let mut input = InputField::new(String::from("first"), Wrap::Word);
    input.set_input(String::from("second line"));
    input.set_wrapping(Wrap::Word);
    let lines = input.lines(Rect { x: 0, y: 0, width: 6, height: 4 });
    assert_eq!(lines, vec!["second", " line"]);
}
