use gz::git::Git;
use gz::tui::{App, CurrentScreen, Direction, KeyInput, StageOp, UiReaction};

const STREAM: &str = "\
1 A. N... 000000 100644 100644 00000000 cccc3333 staged_a.rs\n\
1 M. N... 100644 100644 100644 aaaa1111 bbbb2222 staged_b.rs\n\
? untracked.txt\n";

fn app_with(stream: &str) -> App {
    App::new(Git::open("/repo\n"), CurrentScreen::Add, stream)
}

#[test]
fn new_session_selects_first_entry() {
    let app = app_with(STREAM);
    assert_eq!(app.len(), 3);
    assert_eq!(app.selection(), Some(0));
}

#[test]
fn empty_session_has_no_selection() {
    let app = app_with("");
    assert_eq!(app.len(), 0);
    assert_eq!(app.selection(), None);
}

#[test]
fn move_up_at_first_entry_is_noop() {
    let mut app = app_with(STREAM);
    app.move_selection(Direction::Up);
    assert_eq!(app.selection(), Some(0));
}

#[test]
fn move_down_at_last_entry_is_noop() {
    let mut app = app_with(STREAM);
    app.move_selection(Direction::Down);
    app.move_selection(Direction::Down);
    assert_eq!(app.selection(), Some(2));
    app.move_selection(Direction::Down);
    assert_eq!(app.selection(), Some(2));
}

#[test]
fn selection_stays_in_bounds_over_moves_and_refreshes() {
    let mut app = app_with(STREAM);
    app.move_selection(Direction::Down);
    app.move_selection(Direction::Down);
    app.move_selection(Direction::Up);
    app.refresh_entries(STREAM);
    assert!(app.selection().unwrap() < app.len());
    // the list shrinks under the cursor: clamp to the new last entry
    app.move_selection(Direction::Down);
    app.move_selection(Direction::Down);
    app.refresh_entries("? only.txt\n");
    assert_eq!(app.len(), 1);
    assert_eq!(app.selection(), Some(0));
    // the list becomes empty: no selection
    app.refresh_entries("");
    assert_eq!(app.selection(), None);
}

#[test]
fn toggle_on_staged_entry_asks_unstage() {
    let app = app_with(STREAM);
    match app.toggle_selected() {
        Some(StageOp::Unstage(p)) => assert_eq!(p, "staged_a.rs"),
        other => panic!("expected an unstage of staged_a.rs, got {:?}", other.is_some()),
    }
}

#[test]
fn toggle_on_unstaged_entry_asks_stage() {
    let mut app = app_with(STREAM);
    app.move_selection(Direction::Down);
    app.move_selection(Direction::Down);
    match app.toggle_selected() {
        Some(StageOp::Stage(p)) => assert_eq!(p, "untracked.txt"),
        other => panic!("expected a stage of untracked.txt, got {:?}", other.is_some()),
    }
}

#[test]
fn toggle_on_empty_list_is_noop() {
    let app = app_with("");
    assert!(app.toggle_selected().is_none());
}

#[test]
fn keys_map_to_session_operations() {
    let mut app = app_with(STREAM);
    assert!(matches!(app.handle_key(KeyInput::Down), UiReaction::Nothing));
    assert_eq!(app.selection(), Some(1));
    assert!(matches!(app.handle_key(KeyInput::Up), UiReaction::Nothing));
    assert_eq!(app.selection(), Some(0));
    assert!(matches!(app.handle_key(KeyInput::Release), UiReaction::Nothing));
    assert!(matches!(app.handle_key(KeyInput::Other), UiReaction::Nothing));
    assert!(matches!(
        app.handle_key(KeyInput::Enter),
        UiReaction::Mutate(StageOp::Unstage(_))
    ));
    assert!(matches!(app.handle_key(KeyInput::Quit), UiReaction::Exit));
}

#[test]
fn row_labels_show_counts_and_path() {
    let app = app_with(STREAM);
    let staged = gz::git::LineStats::parse("3\t0\tstaged_a.rs\n");
    let unstaged = gz::git::LineStats::parse("7\t2\tuntracked.txt\n");
    assert_eq!(gz::tui::row_label(app.entry(0), &staged, &unstaged), "+3 -0  staged_a.rs");
    // a staged entry is looked up in the staged mapping only
    assert_eq!(gz::tui::row_label(app.entry(1), &staged, &unstaged), "+0 -0  staged_b.rs");
    assert_eq!(gz::tui::row_label(app.entry(2), &staged, &unstaged), "+7 -2  untracked.txt");
}
