use task_tui::keys::{can_handle_key, edit_item, handle_event, handle_key, handle_new_item};
use task_tui::model::{Folder, Task};
use task_tui::state::{
    delete_folder, get_selected_path, jump_selection_to_draft, remove_draft, reset_folder, AppState,
    Focus, ListState, PopupAction, Step,
};
use task_tui::text::{handle_text_manip, is_blank_text, KeyCode};
use task_tui::tree::count_done;

fn task(desc: &str, done: bool, subs: Vec<Task>, expanded: bool) -> Task {
    Task {
        is_done: done,
        description: desc.to_string(),
        sub_tasks: subs,
        expanded,
        is_draft: false,
        editing: false,
    }
}

fn folder(name: &str, tasks: Vec<Task>) -> Folder {
    let mut f = Folder::new(name.to_string());
    f.tasks = tasks;
    f
}

fn state() -> AppState {
    let tasks = vec![
        task("a", false, vec![task("a0", false, vec![], false), task("a1", false, vec![], false)], true),
        task("b", false, vec![], false),
    ];
    AppState::new(Some(vec![folder("Home", tasks), folder("Work", vec![])]))
}

fn press(s: &mut AppState, c: char) -> Step {
    handle_event(s, KeyCode::Char(c))
}

#[test]
fn starts_with_general_when_nothing_was_saved() {
    for loaded in [None, Some(vec![])] {
        let s = AppState::new(loaded);
        assert_eq!(s.folders.len(), 1);
        assert_eq!(s.folders[0].name, "General");
        assert_eq!(s.folder_state.selected(), Some(0));
        assert_eq!(s.task_state.selected(), None);
        assert!(s.focus == Focus::Folders);
        assert!(!s.new_item_added && !s.item_edit);
    }
}

#[test]
fn starts_with_loaded_folders() {
    let s = state();
    assert_eq!(s.folders.len(), 2);
    assert_eq!(s.folders[1].name, "Work");
    assert_eq!(s.folder_state.selected(), Some(0));
}

#[test]
fn list_state_moves_and_saturates() {
    let mut l = ListState::new();
    l.select_next();
    assert_eq!(l.selected(), Some(0));
    l.select_next();
    assert_eq!(l.selected(), Some(1));
    l.select_previous();
    l.select_previous();
    assert_eq!(l.selected(), Some(0));
    let mut m = ListState::new();
    m.select_previous();
    assert_eq!(m.selected(), Some(usize::MAX));
    m.select_next();
    assert_eq!(m.selected(), Some(usize::MAX));
    m.offset = 4;
    m.select(Some(2));
    assert_eq!(m.offset, 4);
    m.select(None);
    assert_eq!(m.offset, 0);
}

#[test]
fn focus_equality_ignores_popup_text() {
    let a = Focus::Popup { text: "x".to_string(), on_option_confirm: PopupAction::DeleteFolder };
    let b = Focus::Popup { text: "y".to_string(), on_option_confirm: PopupAction::ResetFolder };
    assert!(a == b);
    assert!(Focus::Tasks != Focus::Folders);
    assert!(Focus::Help == Focus::Help);
}

#[test]
fn text_editing_and_blank_check() {
    let mut t = String::from("ab");
    handle_text_manip(KeyCode::Char('c'), &mut t);
    assert_eq!(t, "abc");
    handle_text_manip(KeyCode::Backspace, &mut t);
    assert_eq!(t, "ab");
    handle_text_manip(KeyCode::Enter, &mut t);
    assert_eq!(t, "ab");
    let mut e = String::new();
    handle_text_manip(KeyCode::Backspace, &mut e);
    assert_eq!(e, "");
    assert!(is_blank_text(&String::from(" \t\u{3000}\n")));
    assert!(is_blank_text(&String::new()));
    assert!(!is_blank_text(&String::from("  x ")));
}

#[test]
fn quit_and_focus_keys() {
    let mut s = state();
    assert_eq!(handle_key(KeyCode::Char('q'), &mut s), Step::Quit);
    assert_eq!(press(&mut s, 'h'), Step::Continue);
    assert!(s.focus == Focus::Help);
    assert_eq!(handle_key(KeyCode::Esc, &mut s), Step::Continue);
    assert!(s.focus == Focus::Folders);
    handle_key(KeyCode::Tab, &mut s);
    assert!(s.focus == Focus::Tasks);
    assert_eq!(handle_key(KeyCode::Esc, &mut s), Step::Quit);
    handle_key(KeyCode::Tab, &mut s);
    assert!(s.focus == Focus::Folders);
    press(&mut s, 'h');
    handle_key(KeyCode::Tab, &mut s);
    assert!(s.focus == Focus::Folders);
}

#[test]
fn moving_selections() {
    let mut s = state();
    press(&mut s, 'j');
    assert_eq!(s.folder_state.selected(), Some(1));
    press(&mut s, 'k');
    assert_eq!(s.folder_state.selected(), Some(0));
    handle_key(KeyCode::Tab, &mut s);
    press(&mut s, 'j');
    assert_eq!(s.task_state.selected(), Some(0));
    press(&mut s, 'j');
    assert_eq!(s.task_state.selected(), Some(1));
    assert_eq!(get_selected_path(&mut s), Some(vec![0, 0]));
}

#[test]
fn adding_a_folder_by_typing_its_name() {
    let mut s = state();
    assert_eq!(press(&mut s, 'a'), Step::Continue);
    assert_eq!(s.folders.len(), 3);
    assert!(s.folders[2].is_draft);
    assert_eq!(s.folder_state.selected(), Some(2));
    assert!(s.new_item_added);
    press(&mut s, 'N');
    press(&mut s, 'e');
    handle_event(&mut s, KeyCode::Backspace);
    press(&mut s, 'w');
    assert_eq!(s.folders[2].name, "Nw");
    assert_eq!(handle_event(&mut s, KeyCode::Enter), Step::Save);
    assert!(!s.folders[2].is_draft);
    assert!(!s.new_item_added);
}

#[test]
fn a_blank_folder_name_drops_the_draft() {
    let mut s = state();
    press(&mut s, 'a');
    press(&mut s, ' ');
    assert_eq!(handle_event(&mut s, KeyCode::Enter), Step::Save);
    assert_eq!(s.folders.len(), 2);
    assert!(!s.new_item_added);
}

#[test]
fn esc_cancels_a_new_folder() {
    let mut s = state();
    press(&mut s, 'a');
    press(&mut s, 'x');
    assert_eq!(handle_new_item(KeyCode::Esc, &mut s), Step::TrySave);
    assert_eq!(s.folders.len(), 2);
    assert!(!s.new_item_added);
}

#[test]
fn adding_a_task_beside_the_selected_one() {
    let mut s = state();
    handle_key(KeyCode::Tab, &mut s);
    s.task_state.select(Some(1)); // a0
    press(&mut s, 'a');
    assert!(s.new_item_added);
    assert_eq!(s.folders[0].tasks[0].sub_tasks.len(), 3);
    assert!(s.folders[0].tasks[0].sub_tasks[2].is_draft);
    // the selection jumped to the draft row
    assert_eq!(s.task_state.selected(), Some(3));
    press(&mut s, 'z');
    assert_eq!(s.folders[0].tasks[0].sub_tasks[2].description, "z");
    assert_eq!(handle_event(&mut s, KeyCode::Enter), Step::Save);
    assert!(!s.folders[0].tasks[0].sub_tasks[2].is_draft);
}

#[test]
fn adding_a_top_level_task_without_selection() {
    let mut s = state();
    handle_key(KeyCode::Tab, &mut s);
    s.folder_state.select(Some(1));
    press(&mut s, 'a');
    assert_eq!(s.folders[1].tasks.len(), 1);
    assert!(s.folders[1].tasks[0].is_draft);
    assert_eq!(s.task_state.selected(), Some(0));
    handle_event(&mut s, KeyCode::Esc);
    assert!(s.folders[1].tasks.is_empty());
}

#[test]
fn adding_a_sub_task_expands_the_parent() {
    let mut s = state();
    handle_key(KeyCode::Tab, &mut s);
    s.task_state.select(Some(3)); // b
    press(&mut s, 'A');
    assert!(s.folders[0].tasks[1].expanded);
    assert_eq!(s.folders[0].tasks[1].sub_tasks.len(), 1);
    assert!(s.new_item_added);
    assert_eq!(s.task_state.selected(), Some(4));
}

#[test]
fn toggling_updates_the_parent() {
    let mut s = state();
    handle_key(KeyCode::Tab, &mut s);
    s.task_state.select(Some(1));
    assert_eq!(press(&mut s, ' '), Step::TrySave);
    assert!(s.folders[0].tasks[0].sub_tasks[0].is_done);
    assert!(!s.folders[0].tasks[0].is_done);
    s.task_state.select(Some(2));
    press(&mut s, ' ');
    assert!(s.folders[0].tasks[0].is_done);
    // a task with sub-tasks is not toggled
    s.task_state.select(Some(0));
    assert_eq!(press(&mut s, ' '), Step::Continue);
    assert!(s.folders[0].tasks[0].is_done);
    assert_eq!(count_done(&s.folders[0].tasks[0].sub_tasks), 2);
}

#[test]
fn deleting_a_task_updates_the_parent() {
    let mut s = state();
    handle_key(KeyCode::Tab, &mut s);
    s.task_state.select(Some(1));
    press(&mut s, ' ');
    s.task_state.select(Some(2));
    assert_eq!(press(&mut s, 'd'), Step::TrySave);
    assert_eq!(s.folders[0].tasks[0].sub_tasks.len(), 1);
    assert!(s.folders[0].tasks[0].is_done);
    s.task_state.select(Some(2)); // b
    press(&mut s, 'd');
    assert_eq!(s.folders[0].tasks.len(), 1);
}

#[test]
fn enter_expands_and_collapses() {
    let mut s = state();
    handle_key(KeyCode::Tab, &mut s);
    assert_eq!(handle_key(KeyCode::Enter, &mut s), Step::TrySave);
    assert!(!s.folders[0].tasks[0].expanded);
    assert_eq!(handle_key(KeyCode::Enter, &mut s), Step::TrySave);
    assert!(s.folders[0].tasks[0].expanded);
    s.task_state.select(Some(3));
    assert_eq!(handle_key(KeyCode::Enter, &mut s), Step::Continue);
    assert!(!s.folders[0].tasks[1].expanded);
}

#[test]
fn jumping_to_parent_and_root() {
    let mut tasks = vec![task("r", false, vec![task("c", false, vec![task("g", false, vec![], false)], true)], true)];
    tasks.push(task("s", false, vec![], false));
    let mut s = AppState::new(Some(vec![folder("F", tasks)]));
    handle_key(KeyCode::Tab, &mut s);
    s.task_state.select(Some(2)); // g
    press(&mut s, 'p');
    assert_eq!(s.task_state.selected(), Some(1));
    s.task_state.select(Some(2));
    press(&mut s, 'P');
    assert_eq!(s.task_state.selected(), Some(0));
    s.task_state.select(Some(3));
    press(&mut s, 'p');
    assert_eq!(s.task_state.selected(), Some(3));
}

#[test]
fn renaming_a_folder_and_a_task() {
    let mut s = state();
    press(&mut s, 'e');
    assert!(s.item_edit);
    assert_eq!(handle_event(&mut s, KeyCode::Char('!')), Step::Continue);
    assert!(s.folders[0].editing);
    assert_eq!(s.folders[0].name, "Home!");
    assert_eq!(edit_item(&mut s, KeyCode::Enter), Step::Save);
    assert!(!s.folders[0].editing && !s.item_edit);
    handle_key(KeyCode::Tab, &mut s);
    s.task_state.select(Some(3));
    press(&mut s, 'e');
    handle_event(&mut s, KeyCode::Backspace);
    assert_eq!(s.folders[0].tasks[1].description, "");
    assert_eq!(handle_event(&mut s, KeyCode::Esc), Step::Save);
    assert!(!s.folders[0].tasks[1].editing);
}

#[test]
fn reset_folder_through_the_popup() {
    let mut s = state();
    s.folders[0].tasks[1].is_done = true;
    press(&mut s, 'r');
    match &s.focus {
        Focus::Popup { text, on_option_confirm } => {
            assert_eq!(text, "All task under this folder will be set to undone. Confirm");
            assert_eq!(*on_option_confirm, PopupAction::ResetFolder);
        }
        _ => panic!("no popup"),
    }
    assert_eq!(press(&mut s, 'y'), Step::TrySave);
    assert!(!s.folders[0].tasks[1].is_done);
    assert!(s.focus == Focus::Folders);
}

#[test]
fn delete_folder_through_the_popup() {
    let mut s = state();
    s.folder_state.select(Some(1));
    press(&mut s, 'd');
    match &s.focus {
        Focus::Popup { text, .. } => {
            assert_eq!(text, "All task under this folder will also be deleted. Confirm Deletion")
        }
        _ => panic!("no popup"),
    }
    assert!(can_handle_key(&s, KeyCode::Char('y')));
    assert_eq!(press(&mut s, 'y'), Step::TrySave);
    assert_eq!(s.folders.len(), 1);
    assert_eq!(s.folder_state.selected(), Some(0));
    assert!(s.focus == Focus::Folders);
    assert_eq!(delete_folder(&mut s), Step::TrySave);
    assert!(s.folders.is_empty());
    assert_eq!(s.folder_state.selected(), None);
    assert_eq!(delete_folder(&mut s), Step::Continue);
}

#[test]
fn popup_is_closed_by_q() {
    let mut s = state();
    press(&mut s, 'd');
    assert_eq!(press(&mut s, 'q'), Step::Continue);
    assert!(s.focus == Focus::Folders);
    assert_eq!(s.folders.len(), 2);
}

#[test]
fn out_of_range_selection_is_reported() {
    let mut s = state();
    s.folder_state.select(Some(5));
    handle_key(KeyCode::Tab, &mut s);
    assert!(!can_handle_key(&s, KeyCode::Char('a')));
    assert!(can_handle_key(&s, KeyCode::Char('j')));
}

#[test]
fn remove_draft_drops_draft_folders_and_first_draft_task() {
    let mut s = state();
    s.folders.push(Folder::new_draft());
    s.folders[0].tasks[1].is_draft = true;
    remove_draft(&mut s);
    assert_eq!(s.folders.len(), 2);
    assert_eq!(s.folders[0].tasks.len(), 1);
}

#[test]
fn reset_folder_and_jump_to_draft() {
    let mut s = state();
    s.folders[0].tasks[0].sub_tasks[1].is_done = true;
    assert_eq!(reset_folder(&mut s), Step::TrySave);
    assert!(!s.folders[0].tasks[0].sub_tasks[1].is_done);
    s.folders[0].tasks[1].is_draft = true;
    jump_selection_to_draft(&mut s);
    assert_eq!(s.task_state.selected(), Some(3));
}

#[test]
fn cancelling_a_sub_task_keeps_the_parent_open_and_saves() {
    let mut s = state();
    handle_key(KeyCode::Tab, &mut s);
    s.task_state.select(Some(3)); // b
    press(&mut s, 'A');
    assert_eq!(handle_event(&mut s, KeyCode::Esc), Step::TrySave);
    assert!(s.folders[0].tasks[1].expanded);
    assert!(s.folders[0].tasks[1].sub_tasks.is_empty());
    assert!(!s.new_item_added);
}
