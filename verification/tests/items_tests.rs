use todo_tui::items::{EditMode, Focus, Status, TodoItem, View};

#[test]
fn todo_item_new_copies_fields() {
    let item = TodoItem::new(Status::Todo, "write tests", "for the wrapping engine");
    assert!(matches!(item.status, Status::Todo));
    assert_eq!(item.todo, "write tests");
    assert_eq!(item.info, "for the wrapping engine");
}

#[test]
fn status_toggles_both_ways() {
    assert_eq!(Status::Todo.toggled(), Status::Completed);
    assert_eq!(Status::Completed.toggled(), Status::Todo);
    assert_eq!(Status::Todo.toggled().toggled(), Status::Todo);
}

#[test]
fn focus_moves_down_and_saturates() {
    assert_eq!(Focus::Todo.below(), Focus::Info);
    assert_eq!(Focus::Info.below(), Focus::Info);
}

#[test]
fn focus_moves_up_and_saturates() {
    assert_eq!(Focus::Info.above(), Focus::Todo);
    assert_eq!(Focus::Todo.above(), Focus::Todo);
}

#[test]
fn view_and_edit_mode_are_plain_states() {
    assert_eq!(View::List, View::List);
    assert_ne!(View::List, View::Edit);
    assert_ne!(EditMode::Normal, EditMode::Insert);
}
