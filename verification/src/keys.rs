use vstd::prelude::*;
use crate::model::{
    Folder, FolderView, Task, TaskView, draft_folder, draft_task, folder_views, views,
    lemma_views, lemma_views_update, lemma_views_push, lemma_view_fields,
    lemma_folder_views_update, lemma_folder_views_push, lemma_update_same,
};
use crate::tree::{
    node_at, replace_at, first_draft, complete_ancestors, get_task_by_path, find_draft_mut,
    update_parent_completion,
};
use crate::text::{KeyCode, edit_text, is_blank, handle_text_manip, is_blank_text};
use crate::state::{
    AppState, AppView, Focus, FocusView, ListState, PopupAction, RowTest, Step, active,
    after_delete_folder, after_reset_folder, delete_folder, first_row_where, get_selected_path,
    jump_selection_to_draft, jump_to_draft, lemma_selected_path_valid, lemma_state_fits, outline,
    remove_draft, reset_folder, selected_path, selecting, step_down, step_up, with_tasks,
    without_drafts,
};

verus! {

broadcast use {
    lemma_views,
    crate::model::lemma_views_remove,
    lemma_views_update,
    lemma_views_push,
    lemma_view_fields,
    lemma_folder_views_update,
    lemma_folder_views_push,
    lemma_update_same,
};

/// The index of the first draft folder.
pub open spec fn first_draft_folder(fs: Seq<FolderView>) -> Option<int>
    decreases fs.len(),
{
    if fs.len() == 0 {
        None
    } else {
        match first_draft_folder(fs.drop_last()) {
            Some(i) => Some(i),
            None => if fs.last().is_draft {
                Some(fs.len() - 1)
            } else {
                None
            },
        }
    }
}

proof fn lemma_first_draft_folder_prefix(fs: Seq<FolderView>, k: int)
    requires
        0 <= k <= fs.len(),
        first_draft_folder(fs.take(k)) is Some,
    ensures
        first_draft_folder(fs) == first_draft_folder(fs.take(k)),
    decreases fs.len() - k,
{
    if k < fs.len() {
        assert(fs.take(k + 1).drop_last() =~= fs.take(k));
        lemma_first_draft_folder_prefix(fs, k + 1);
    } else {
        assert(fs.take(k) =~= fs);
    }
}

/// The first draft folder is a folder of the list.
proof fn lemma_first_draft_folder(fs: Seq<FolderView>)
    ensures
        first_draft_folder(fs) matches Some(i) ==> 0 <= i < fs.len() && fs[i].is_draft,
    decreases fs.len(),
{
    if fs.len() > 0 {
        lemma_first_draft_folder(fs.drop_last());
    }
}

/// The index of the first draft folder.
fn find_draft_folder(folders: &Vec<Folder>) -> (r: Option<usize>)
    ensures
        r matches Some(i) ==> first_draft_folder(folder_views(folders@)) == Some(i as int),
        r is None ==> first_draft_folder(folder_views(folders@)) is None,
{
    let ghost fs = folder_views(folders@);
    let mut i: usize = 0;
    while i < folders.len()
        invariant
            i <= folders@.len(),
            fs == folder_views(folders@),
            first_draft_folder(fs.take(i as int)) is None,
        decreases folders@.len() - i,
    {
        proof {
            assert(fs.take(i + 1).drop_last() =~= fs.take(i as int));
            assert(fs.take(i + 1).last() == folders@[i as int]@);
        }
        if folders[i].is_draft {
            proof {
                lemma_first_draft_folder_prefix(fs, i + 1);
            }
            return Some(i);
        }
        i = i + 1;
    }
    assert(fs.take(i as int) =~= fs);
    None
}

/// `s` with folder `i` replaced by `f`.
pub open spec fn with_folder(s: AppView, i: int, f: FolderView) -> AppView {
    AppView { folders: s.folders.update(i, f), ..s }
}

/// The state after `key` is typed into the item being added: into the name
/// of the first draft folder when the folders have the focus, else into the
/// text of the first draft task of the selected folder.
pub open spec fn typed_into_draft(s: AppView, key: KeyCode) -> AppView {
    if s.focus is Folders {
        match first_draft_folder(s.folders) {
            Some(i) => with_folder(
                s,
                i,
                FolderView { name: edit_text(s.folders[i].name, key), ..s.folders[i] },
            ),
            None => s,
        }
    } else {
        match active(s) {
            Some(i) => match first_draft(s.folders[i].tasks) {
                Some(p) => {
                    let t = node_at(s.folders[i].tasks, p).unwrap();
                    with_tasks(
                        s,
                        i,
                        replace_at(
                            s.folders[i].tasks,
                            p,
                            TaskView { description: edit_text(t.description, key), ..t },
                        ),
                    )
                },
                None => s,
            },
            None => s,
        }
    }
}

/// The state after Enter finishes the item being added: a draft whose text
/// is blank is dropped (as `without_drafts` drops drafts), else it becomes a
/// finished item, and a finished task brings the ancestors of the selected
/// task in line with their sub-tasks.
pub open spec fn finished_draft(s: AppView) -> AppView {
    if s.focus is Folders {
        match first_draft_folder(s.folders) {
            Some(i) => if is_blank(s.folders[i].name) {
                without_drafts(s)
            } else {
                with_folder(s, i, FolderView { is_draft: false, ..s.folders[i] })
            },
            None => s,
        }
    } else {
        match active(s) {
            Some(i) => match first_draft(s.folders[i].tasks) {
                Some(p) => {
                    let t = node_at(s.folders[i].tasks, p).unwrap();
                    if is_blank(t.description) {
                        without_drafts(s)
                    } else {
                        let ts = replace_at(s.folders[i].tasks, p, TaskView { is_draft: false, ..t });
                        with_tasks(
                            s,
                            i,
                            match selected_path(s) {
                                Some(path) => complete_ancestors(ts, path),
                                None => ts,
                            },
                        )
                    }
                },
                None => s,
            },
            None => s,
        }
    }
}

/// The state after `key` while a new item is being added, and what to do
/// next: Esc drops the drafts and saves what is left (a parent task opened
/// for the draft stays open), Enter finishes the draft and saves, other keys
/// are typed into the draft.
pub open spec fn new_item_step(s: AppView, key: KeyCode) -> (AppView, Step) {
    let s1 = typed_into_draft(s, key);
    match key {
        KeyCode::Esc => (AppView { new_item_added: false, ..without_drafts(s1) }, Step::TrySave),
        KeyCode::Enter => (AppView { new_item_added: false, ..finished_draft(s1) }, Step::Save),
        _ => (s1, Step::Continue),
    }
}

/// Types `key` into the item being added.
fn type_into_draft(key: KeyCode, app_state: &mut AppState)
    ensures
        final(app_state)@ == typed_into_draft(old(app_state)@, key),
{
    if app_state.focus == Focus::Folders {
        if let Some(i) = find_draft_folder(&app_state.folders) {
            proof {
                lemma_first_draft_folder(app_state@.folders);
            }
            handle_text_manip(key, &mut app_state.folders[i].name);
        }
    } else if let Some(folder) = app_state.get_active_folder_mut() {
        proof {
            crate::model::lemma_vec_fits(&folder.tasks);
        }
        if let Some(draft) = find_draft_mut(&mut folder.tasks) {
            handle_text_manip(key, &mut draft.description);
        }
    }
}

/// Finishes the item being added.
fn finish_draft(app_state: &mut AppState)
    ensures
        final(app_state)@ == finished_draft(old(app_state)@),
{
    if app_state.focus == Focus::Folders {
        if let Some(i) = find_draft_folder(&app_state.folders) {
            proof {
                lemma_first_draft_folder(app_state@.folders);
            }
            if is_blank_text(&app_state.folders[i].name) {
                remove_draft(app_state);
            } else {
                app_state.folders[i].is_draft = false;
            }
        }
    } else {
        let path_opt = get_selected_path(app_state);
        let blank = match app_state.get_active_folder_mut() {
            Some(folder) => {
                let ghost f0 = views(folder.tasks@);
                proof {
                    crate::model::lemma_vec_fits(&folder.tasks);
                }
                match find_draft_mut(&mut folder.tasks) {
                Some(draft) => {
                    if is_blank_text(&draft.description) {
                        proof {
                            crate::tree::lemma_replace_read_back(f0, first_draft(f0).unwrap());
                        }
                        true
                    } else {
                        draft.is_draft = false;
                        if let Some(path) = path_opt {
                            update_parent_completion(&mut folder.tasks, path);
                        }
                        false
                    }
                },
                None => false,
                }
            },
            None => false,
        };
        if blank {
            remove_draft(app_state);
        }
    }
}

/// Handles a key while a new folder or task is being typed in.
pub fn handle_new_item(key: KeyCode, app_state: &mut AppState) -> (r: Step)
    ensures
        (final(app_state)@, r) == new_item_step(old(app_state)@, key),
{
    type_into_draft(key, app_state);
    match key {
        KeyCode::Esc => {
            remove_draft(app_state);
            app_state.new_item_added = false;
            Step::TrySave
        },
        KeyCode::Enter => {
            finish_draft(app_state);
            app_state.new_item_added = false;
            Step::Save
        },
        _ => Step::Continue,
    }
}

/// Whether `key` ends renaming.
pub open spec fn ends_edit(key: KeyCode) -> bool {
    key == KeyCode::Enter || key == KeyCode::Esc
}

/// The state after `key` while the selected folder or task is being renamed,
/// and what to do next: the key is typed into the name of the selected
/// folder (folders focused) or the text of the selected task (tasks focused);
/// Enter or Esc ends the renaming and saves.
pub open spec fn edit_step(s: AppView, key: KeyCode) -> (AppView, Step) {
    let ends = ends_edit(key);
    let step = if ends {
        Step::Save
    } else {
        Step::Continue
    };
    let item_edit = if ends {
        false
    } else {
        s.item_edit
    };
    if s.focus is Folders {
        match active(s) {
            Some(i) => {
                let f = s.folders[i];
                let f1 = FolderView { name: edit_text(f.name, key), editing: !ends, ..f };
                (AppView { item_edit, ..with_folder(s, i, f1) }, step)
            },
            None => (s, Step::Continue),
        }
    } else if s.focus is Tasks {
        match selected_path(s) {
            Some(path) => match active(s) {
                Some(i) => match node_at(s.folders[i].tasks, path) {
                    Some(t) => {
                        let t1 = TaskView {
                            description: edit_text(t.description, key),
                            editing: !ends,
                            ..t
                        };
                        (
                            AppView {
                                item_edit,
                                ..with_tasks(s, i, replace_at(s.folders[i].tasks, path, t1))
                            },
                            step,
                        )
                    },
                    None => (s, Step::Continue),
                },
                None => (s, Step::Continue),
            },
            None => (s, Step::Continue),
        }
    } else {
        (s, Step::Continue)
    }
}

/// Handles a key while the selected folder or task is being renamed.
pub fn edit_item(app_state: &mut AppState, key: KeyCode) -> (r: Step)
    ensures
        (final(app_state)@, r) == edit_step(old(app_state)@, key),
{
    let ends = match key {
        KeyCode::Enter | KeyCode::Esc => true,
        _ => false,
    };
    if app_state.focus == Focus::Folders {
        if let Some(folder) = app_state.get_active_folder_mut() {
            handle_text_manip(key, &mut folder.name);
            folder.editing = true;
            if ends {
                folder.editing = false;
                app_state.item_edit = false;
                return Step::Save;
            }
        }
    } else if app_state.focus == Focus::Tasks {
        if let Some(path) = get_selected_path(app_state) {
            if let Some(folder) = app_state.get_active_folder_mut() {
                if let Some(task) = get_task_by_path(&mut folder.tasks, path.as_slice()) {
                    handle_text_manip(key, &mut task.description);
                    task.editing = true;
                    if ends {
                        task.editing = false;
                        app_state.item_edit = false;
                        return Step::Save;
                    }
                }
            }
        }
    }
    Step::Continue
}

/// The state after Space, and what to do next: with the tasks focused, a
/// selected task without sub-tasks flips between done and undone, its
/// ancestors are brought in line with their sub-tasks, and the folders are
/// saved.
pub open spec fn after_toggle(s: AppView) -> (AppView, Step) {
    if s.focus is Tasks {
        match selected_path(s) {
            Some(path) => match active(s) {
                Some(i) => match node_at(s.folders[i].tasks, path) {
                    Some(t) => if t.sub_tasks.len() > 0 {
                        (s, Step::Continue)
                    } else {
                        let ts = replace_at(
                            s.folders[i].tasks,
                            path,
                            TaskView { is_done: !t.is_done, ..t },
                        );
                        (with_tasks(s, i, complete_ancestors(ts, path)), Step::TrySave)
                    },
                    None => (s, Step::Continue),
                },
                None => (s, Step::Continue),
            },
            None => (s, Step::Continue),
        }
    } else {
        (s, Step::Continue)
    }
}

/// Flips the selected task between done and undone.
fn toggle_selected(app_state: &mut AppState) -> (r: Step)
    ensures
        (final(app_state)@, r) == after_toggle(old(app_state)@),
{
    if app_state.focus != Focus::Tasks {
        return Step::Continue;
    }
    let path = match get_selected_path(app_state) {
        Some(p) => p,
        None => return Step::Continue,
    };
    match app_state.get_active_folder_mut() {
        Some(folder) => {
            let ghost f0 = views(folder.tasks@);
            let flipped = match get_task_by_path(&mut folder.tasks, path.as_slice()) {
                Some(task) => {
                    if !task.sub_tasks.is_empty() {
                        proof {
                            crate::tree::lemma_replace_read_back(f0, path@);
                        }
                        false
                    } else {
                        task.is_done = !task.is_done;
                        true
                    }
                },
                None => false,
            };
            if !flipped {
                return Step::Continue;
            }
            update_parent_completion(&mut folder.tasks, path);
            Step::TrySave
        },
        None => Step::Continue,
    }
}

/// The state after a move up (`down` false) or down the focused list.
pub open spec fn after_move(s: AppView, down: bool) -> AppView {
    let next = |st: ListState|
        if down {
            selecting(
                st,
                Some(
                    match st.selected {
                        Some(i) => step_up(i),
                        None => 0,
                    },
                ),
            )
        } else {
            selecting(
                st,
                Some(
                    match st.selected {
                        Some(i) => step_down(i),
                        None => usize::MAX,
                    },
                ),
            )
        };
    match s.focus {
        FocusView::Folders => AppView { folder_state: next(s.folder_state), ..s },
        FocusView::Tasks => AppView { task_state: next(s.task_state), ..s },
        _ => s,
    }
}

/// Moves the selection of the focused list up or down.
fn move_selection(app_state: &mut AppState, down: bool)
    ensures
        final(app_state)@ == after_move(old(app_state)@, down),
{
    match app_state.focus {
        Focus::Folders => if down {
            app_state.folder_state.select_next()
        } else {
            app_state.folder_state.select_previous()
        },
        Focus::Tasks => if down {
            app_state.task_state.select_next()
        } else {
            app_state.task_state.select_previous()
        },
        _ => {},
    }
}

/// The tasks of a folder after a new draft task is added beside the task at
/// `path`: among the sub-tasks of its parent, or at the top level for a
/// top-level task or when no task is selected. Where the parent is missing
/// nothing is added.
pub open spec fn with_draft_beside(ts: Seq<TaskView>, path: Option<Seq<usize>>) -> Seq<TaskView> {
    match path {
        Some(p) => if p.len() > 1 {
            match node_at(ts, p.drop_last()) {
                Some(parent) => replace_at(
                    ts,
                    p.drop_last(),
                    TaskView { sub_tasks: parent.sub_tasks.push(draft_task()), ..parent },
                ),
                None => ts,
            }
        } else {
            ts.push(draft_task())
        },
        None => ts.push(draft_task()),
    }
}

/// The state after `a`: with the folders focused a draft folder is added at
/// the end and selected; otherwise a draft task is added beside the selected
/// task of the selected folder (see `with_draft_beside`) and the task
/// selection jumps to the first draft. Either way a new item is being added.
pub open spec fn after_add(s: AppView) -> AppView {
    if s.focus is Folders {
        let fs = s.folders.push(draft_folder());
        AppView {
            folders: fs,
            folder_state: selecting(s.folder_state, Some((fs.len() - 1) as usize)),
            new_item_added: true,
            ..s
        }
    } else {
        let s1 = match s.folder_state.selected {
            Some(fi) => with_tasks(
                s,
                fi as int,
                with_draft_beside(s.folders[fi as int].tasks, selected_path(s)),
            ),
            None => s,
        };
        jump_to_draft(AppView { new_item_added: true, ..s1 })
    }
}

/// Adds a draft folder or task.
fn add_item(app_state: &mut AppState)
    requires
        !(old(app_state)@.focus is Folders) ==> (old(app_state).folder_state.selected matches Some(
            i,
        ) ==> i < old(app_state).folders@.len()),
    ensures
        final(app_state)@ == after_add(old(app_state)@),
{
    if app_state.focus == Focus::Folders {
        app_state.folders.push(Folder::new_draft());
        let last = app_state.folders.len() - 1;
        app_state.folder_state.select(Some(last));
        app_state.new_item_added = true;
    } else {
        let path_opt = get_selected_path(app_state);
        if let Some(folder_idx) = app_state.folder_state.selected() {
            let folder = &mut app_state.folders[folder_idx];
            let new_draft_task = Task::new_draft();
            match path_opt {
                Some(path) => match crate::tree::get_parent_path(path) {
                    Some(parent_path) => {
                        if let Some(parent_task) = get_task_by_path(
                            &mut folder.tasks,
                            parent_path.as_slice(),
                        ) {
                            parent_task.sub_tasks.push(new_draft_task);
                        }
                    },
                    None => folder.tasks.push(new_draft_task),
                },
                None => folder.tasks.push(new_draft_task),
            }
        }
        app_state.new_item_added = true;
        jump_selection_to_draft(app_state);
    }
}

/// The state after `d`, and what to do next: with the folders focused a
/// pop-up asks to confirm deleting the folder; with the tasks focused the
/// selected task is removed with its sub-tasks, its ancestors are brought in
/// line, and the folders are saved.
pub open spec fn after_delete(s: AppView) -> (AppView, Step) {
    if s.focus is Folders {
        (
            AppView {
                focus: FocusView::Popup {
                    text: "All task under this folder will also be deleted. Confirm Deletion"@,
                    on_option_confirm: PopupAction::DeleteFolder,
                },
                ..s
            },
            Step::Continue,
        )
    } else if s.focus is Tasks {
        match selected_path(s) {
            Some(path) => match active(s) {
                Some(i) => (
                    with_tasks(
                        s,
                        i,
                        complete_ancestors(crate::tree::remove_at(s.folders[i].tasks, path), path),
                    ),
                    Step::TrySave,
                ),
                None => (s, Step::Continue),
            },
            None => (s, Step::Continue),
        }
    } else {
        (s, Step::Continue)
    }
}

/// Asks to delete the selected folder, or deletes the selected task.
fn delete_item(app_state: &mut AppState) -> (r: Step)
    ensures
        (final(app_state)@, r) == after_delete(old(app_state)@),
{
    if app_state.focus == Focus::Folders {
        app_state.focus = Focus::Popup {
            text: "All task under this folder will also be deleted. Confirm Deletion".to_owned(),
            on_option_confirm: PopupAction::DeleteFolder,
        };
        return Step::Continue;
    }
    if app_state.focus != Focus::Tasks {
        return Step::Continue;
    }
    let path = match get_selected_path(app_state) {
        Some(p) => p,
        None => return Step::Continue,
    };
    proof {
        lemma_state_fits(app_state);
        lemma_selected_path_valid(app_state@);
    }
    match app_state.get_active_folder_mut() {
        Some(folder) => {
            let ghost f0 = views(folder.tasks@);
            if path.len() == 1 {
                folder.tasks.remove(path[0]);
            } else {
                proof {
                    crate::tree::lemma_remove_via_parent(f0, path@);
                }
                let parent_path = vstd::slice::slice_subrange(path.as_slice(), 0, path.len() - 1);
                let child_idx = path[path.len() - 1];
                if let Some(parent) = get_task_by_path(&mut folder.tasks, parent_path) {
                    parent.sub_tasks.remove(child_idx);
                }
            }
            update_parent_completion(&mut folder.tasks, path);
            Step::TrySave
        },
        None => Step::Continue,
    }
}

/// The state after `A`: with the tasks focused, a draft task is added at the
/// end of the sub-tasks of the selected task, which is expanded; a new item is
/// then being added and the task selection jumps to the first draft.
pub open spec fn after_add_sub_task(s: AppView) -> AppView {
    if s.focus is Tasks {
        match selected_path(s) {
            Some(path) => match active(s) {
                Some(i) => match node_at(s.folders[i].tasks, path) {
                    Some(parent) => {
                        let ts = replace_at(
                            s.folders[i].tasks,
                            path,
                            TaskView {
                                sub_tasks: parent.sub_tasks.push(draft_task()),
                                expanded: true,
                                ..parent
                            },
                        );
                        jump_to_draft(AppView { new_item_added: true, ..with_tasks(s, i, ts) })
                    },
                    None => s,
                },
                None => s,
            },
            None => s,
        }
    } else {
        s
    }
}

/// Adds a draft sub-task to the selected task.
fn add_sub_task(app_state: &mut AppState)
    ensures
        final(app_state)@ == after_add_sub_task(old(app_state)@),
{
    if app_state.focus != Focus::Tasks {
        return;
    }
    let new_draft_task = Task::new_draft();
    if let Some(path) = get_selected_path(app_state) {
        let added = match app_state.get_active_folder_mut() {
            Some(folder) => match get_task_by_path(&mut folder.tasks, path.as_slice()) {
                Some(parent_task) => {
                    parent_task.sub_tasks.push(new_draft_task);
                    parent_task.expanded = true;
                    true
                },
                None => false,
            },
            None => false,
        };
        if added {
            app_state.new_item_added = true;
            jump_selection_to_draft(app_state);
        }
    }
}

/// The state after Enter: with the tasks focused, a selected task that has
/// sub-tasks is expanded or collapsed.
pub open spec fn after_expand(s: AppView) -> AppView {
    if s.focus is Tasks {
        match selected_path(s) {
            Some(path) => match active(s) {
                Some(i) => match node_at(s.folders[i].tasks, path) {
                    Some(t) => if t.sub_tasks.len() > 0 {
                        with_tasks(
                            s,
                            i,
                            replace_at(
                                s.folders[i].tasks,
                                path,
                                TaskView { expanded: !t.expanded, ..t },
                            ),
                        )
                    } else {
                        s
                    },
                    None => s,
                },
                None => s,
            },
            None => s,
        }
    } else {
        s
    }
}

/// Whether Enter expands or collapses a task: the tasks are focused and the
/// selected task has sub-tasks.
pub open spec fn expand_applies(s: AppView) -> bool {
    &&& s.focus is Tasks
    &&& selected_path(s) matches Some(path)
    &&& active(s) matches Some(i)
    &&& node_at(s.folders[i].tasks, path) matches Some(t)
    &&& t.sub_tasks.len() > 0
}

/// The state after Enter, and what to do next: where a task is expanded or
/// collapsed, the folders are saved.
pub open spec fn after_expand_step(s: AppView) -> (AppView, Step) {
    (after_expand(s), if expand_applies(s) {
        Step::TrySave
    } else {
        Step::Continue
    })
}

/// Expands or collapses the selected task.
fn toggle_expanded(app_state: &mut AppState) -> (r: Step)
    ensures
        (final(app_state)@, r) == after_expand_step(old(app_state)@),
{
    if app_state.focus != Focus::Tasks {
        return Step::Continue;
    }
    if let Some(path) = get_selected_path(app_state) {
        if let Some(folder) = app_state.get_active_folder_mut() {
            let ghost f0 = views(folder.tasks@);
            let flipped = match get_task_by_path(&mut folder.tasks, path.as_slice()) {
                Some(task) => {
                    if !task.sub_tasks.is_empty() {
                        task.expanded = !task.expanded;
                        true
                    } else {
                        proof {
                            crate::tree::lemma_replace_read_back(f0, path@);
                        }
                        false
                    }
                },
                None => false,
            };
            if flipped {
                return Step::TrySave;
            }
        }
    }
    Step::Continue
}

/// The state after the task selection jumps to the row whose path is
/// `target` in the selected folder's outline, where there is such a row.
pub open spec fn jump_to_path(s: AppView, target: Seq<usize>) -> AppView {
    match active(s) {
        Some(i) => match first_row_where(outline(s, i), RowTest::Path(target)) {
            Some(k) => AppView { task_state: selecting(s.task_state, Some(k as usize)), ..s },
            None => s,
        },
        None => s,
    }
}

/// The state after `p` (to the parent, `to_root` false) or `P` (to the
/// top-level ancestor): with the tasks focused and a nested task selected,
/// the selection jumps to that ancestor's row.
pub open spec fn after_jump_up(s: AppView, to_root: bool) -> AppView {
    if s.focus is Tasks {
        match selected_path(s) {
            Some(path) => if path.len() > 1 {
                jump_to_path(s, if to_root { path.take(1) } else { path.drop_last() })
            } else {
                s
            },
            None => s,
        }
    } else {
        s
    }
}

/// Selects the row whose path is `target` in the selected folder's outline.
fn select_row_at(app_state: &mut AppState, target: &Vec<usize>)
    ensures
        final(app_state)@ == jump_to_path(old(app_state)@, target@),
{
    let idx = match app_state.folder_state.selected() {
        Some(i) => i,
        None => return,
    };
    if idx >= app_state.folders.len() {
        return;
    }
    let root: Vec<usize> = Vec::new();
    let k = {
        let folder = &app_state.folders[idx];
        let flat_tasks = crate::tree::flatten_tasks(folder.tasks.as_slice(), 0, root.as_slice());
        proof {
            assert(app_state@.folders[idx as int] == folder@);
        }
        crate::state::first_row(&flat_tasks, Some(target))
    };
    if let Some(k) = k {
        app_state.task_state.select(Some(k));
    }
}

/// Selects the parent (or the top-level ancestor) of the selected task.
fn jump_up(app_state: &mut AppState, to_root: bool)
    ensures
        final(app_state)@ == after_jump_up(old(app_state)@, to_root),
{
    if app_state.focus != Focus::Tasks {
        return;
    }
    if let Some(path) = get_selected_path(app_state) {
        if path.len() > 1 {
            let mut target = path;
            if to_root {
                target.truncate(1);
                assert(target@ == path@.take(1));
            } else {
                target.pop();
            }
            select_row_at(app_state, &target);
        }
    }
}

/// The state after `y`, and what to do next: an open pop-up's action is
/// carried out (`after_delete_folder` or `after_reset_folder`, both asking
/// for a save) and the folders take the focus.
pub open spec fn after_confirm(s: AppView) -> (AppView, Step) {
    match s.focus {
        FocusView::Popup { on_option_confirm, .. } => {
            let (s1, step) = match on_option_confirm {
                PopupAction::DeleteFolder => after_delete_folder(s),
                PopupAction::ResetFolder => (after_reset_folder(s), Step::TrySave),
            };
            (AppView { focus: FocusView::Folders, ..s1 }, step)
        },
        _ => (s, Step::Continue),
    }
}

/// Carries out what an open pop-up asks.
fn confirm_popup(app_state: &mut AppState) -> (r: Step)
    requires
        old(app_state)@.focus matches FocusView::Popup {
            on_option_confirm: PopupAction::DeleteFolder,
            ..
        } ==> (old(app_state).folder_state.selected matches Some(i) ==> i
            < old(app_state).folders@.len()),
    ensures
        (final(app_state)@, r) == after_confirm(old(app_state)@),
{
    let action = match &app_state.focus {
        Focus::Popup { on_option_confirm, .. } => *on_option_confirm,
        _ => return Step::Continue,
    };
    let step = match action {
        PopupAction::DeleteFolder => delete_folder(app_state),
        PopupAction::ResetFolder => reset_folder(app_state),
    };
    app_state.focus = Focus::Folders;
    step
}

/// Whether the selected folder must exist for `key` to be handled: `a` away
/// from the folders, and `y` on a pop-up that deletes a folder, reach the
/// selected folder by its index.
pub open spec fn key_needs_folder(s: AppView, key: KeyCode) -> bool {
    ||| key == KeyCode::Char('a') && !(s.focus is Folders)
    ||| key == KeyCode::Char('y') && s.focus matches FocusView::Popup {
        on_option_confirm: PopupAction::DeleteFolder,
        ..
    }
}

/// Whether the folder selection, if any, is within the list.
pub open spec fn folder_selection_valid(s: AppView) -> bool {
    s.folder_state.selected matches Some(i) ==> i < s.folders.len()
}

/// The state after `key` when nothing is being typed in, and what to do next.
/// Esc or `q` quits from the folders or the tasks and closes the help or a
/// pop-up otherwise; `h` opens or closes the help; Tab switches between the
/// folders and the tasks; `j`/`k` move down/up; `e` starts renaming; `r` asks
/// to reset the folder; the other keys are described by their own steps.
pub open spec fn key_step(s: AppView, key: KeyCode) -> (AppView, Step) {
    match key {
        KeyCode::Esc | KeyCode::Char('q') => if s.focus is Folders || s.focus is Tasks {
            (s, Step::Quit)
        } else {
            (AppView { focus: FocusView::Folders, ..s }, Step::Continue)
        },
        KeyCode::Char('h') => (
            AppView {
                focus: if s.focus is Help {
                    FocusView::Folders
                } else {
                    FocusView::Help
                },
                ..s
            },
            Step::Continue,
        ),
        KeyCode::Tab => (
            AppView {
                focus: if s.focus is Folders {
                    FocusView::Tasks
                } else {
                    FocusView::Folders
                },
                ..s
            },
            Step::Continue,
        ),
        KeyCode::Char(' ') => after_toggle(s),
        KeyCode::Char('k') => (after_move(s, false), Step::Continue),
        KeyCode::Char('j') => (after_move(s, true), Step::Continue),
        KeyCode::Char('a') => (after_add(s), Step::Continue),
        KeyCode::Char('e') => (AppView { item_edit: true, ..s }, Step::Continue),
        KeyCode::Char('d') => after_delete(s),
        KeyCode::Char('A') => (after_add_sub_task(s), Step::Continue),
        KeyCode::Enter => after_expand_step(s),
        KeyCode::Char('p') => (after_jump_up(s, false), Step::Continue),
        KeyCode::Char('P') => (after_jump_up(s, true), Step::Continue),
        KeyCode::Char('y') => after_confirm(s),
        KeyCode::Char('r') => if s.focus is Folders {
            (
                AppView {
                    focus: FocusView::Popup {
                        text: "All task under this folder will be set to undone. Confirm"@,
                        on_option_confirm: PopupAction::ResetFolder,
                    },
                    ..s
                },
                Step::Continue,
            )
        } else {
            (s, Step::Continue)
        },
        _ => (s, Step::Continue),
    }
}

/// Handles a key when nothing is being typed in.
pub fn handle_key(key: KeyCode, app_state: &mut AppState) -> (r: Step)
    requires
        key_needs_folder(old(app_state)@, key) ==> folder_selection_valid(old(app_state)@),
    ensures
        (final(app_state)@, r) == key_step(old(app_state)@, key),
{
    match key {
        KeyCode::Esc | KeyCode::Char('q') => {
            if app_state.focus == Focus::Folders || app_state.focus == Focus::Tasks {
                return Step::Quit;
            } else {
                app_state.focus = Focus::Folders;
            }
        },
        KeyCode::Char('h') => {
            if app_state.focus == Focus::Help {
                app_state.focus = Focus::Folders;
            } else {
                app_state.focus = Focus::Help;
            }
        },
        KeyCode::Tab => {
            app_state.focus = if app_state.focus == Focus::Folders {
                Focus::Tasks
            } else {
                Focus::Folders
            };
        },
        KeyCode::Char(' ') => return toggle_selected(app_state),
        KeyCode::Char('k') => move_selection(app_state, false),
        KeyCode::Char('j') => move_selection(app_state, true),
        KeyCode::Char('a') => add_item(app_state),
        KeyCode::Char('e') => {
            app_state.item_edit = true;
        },
        KeyCode::Char('d') => return delete_item(app_state),
        KeyCode::Char('A') => add_sub_task(app_state),
        KeyCode::Enter => return toggle_expanded(app_state),
        KeyCode::Char('p') => jump_up(app_state, false),
        KeyCode::Char('P') => jump_up(app_state, true),
        KeyCode::Char('y') => return confirm_popup(app_state),
        KeyCode::Char('r') => {
            if app_state.focus == Focus::Folders {
                app_state.focus = Focus::Popup {
                    text: "All task under this folder will be set to undone. Confirm".to_owned(),
                    on_option_confirm: PopupAction::ResetFolder,
                };
            }
        },
        _ => {},
    }
    Step::Continue
}

/// The state after `key`, and what to do next: keys go to the item being
/// added, else to the item being renamed, else to the key bindings.
pub open spec fn event_step(s: AppView, key: KeyCode) -> (AppView, Step) {
    if s.new_item_added {
        new_item_step(s, key)
    } else if s.item_edit {
        edit_step(s, key)
    } else {
        key_step(s, key)
    }
}

/// Whether `key` can be handled in state `s` without reaching a folder that
/// is not there.
pub open spec fn can_handle(s: AppView, key: KeyCode) -> bool {
    !s.new_item_added && !s.item_edit && key_needs_folder(s, key) ==> folder_selection_valid(s)
}

/// Handles one key press.
pub fn handle_event(app_state: &mut AppState, key: KeyCode) -> (r: Step)
    requires
        can_handle(old(app_state)@, key),
    ensures
        (final(app_state)@, r) == event_step(old(app_state)@, key),
{
    if app_state.new_item_added {
        handle_new_item(key, app_state)
    } else if app_state.item_edit {
        edit_item(app_state, key)
    } else {
        handle_key(key, app_state)
    }
}

/// Whether `key` can be handled in this state (see `can_handle`).
pub fn can_handle_key(app_state: &AppState, key: KeyCode) -> (r: bool)
    ensures
        r == can_handle(app_state@, key),
{
    let needs = match key {
        KeyCode::Char('a') => app_state.focus != Focus::Folders,
        KeyCode::Char('y') => match &app_state.focus {
            Focus::Popup { on_option_confirm: PopupAction::DeleteFolder, .. } => true,
            _ => false,
        },
        _ => false,
    };
    if app_state.new_item_added || app_state.item_edit || !needs {
        return true;
    }
    match app_state.folder_state.selected() {
        Some(i) => i < app_state.folders.len(),
        None => true,
    }
}

/// With the tasks focused and a nested task selected, `p` always selects the
/// row of the task's parent and `P` the row of its top-level ancestor: those
/// rows are always shown. The folders are left as they are.
pub proof fn lemma_jump_up_selects_ancestor(s: AppView, to_root: bool)
    requires
        forall|i: int| 0 <= i < s.folders.len() ==> crate::model::fits(#[trigger] s.folders[i].tasks),
        s.focus is Tasks,
        selected_path(s) matches Some(path) && path.len() > 1,
    ensures
        ({
            let path = selected_path(s).unwrap();
            let target = if to_root {
                path.take(1)
            } else {
                path.drop_last()
            };
            let i = active(s).unwrap();
            let t = after_jump_up(s, to_root);
            &&& t.folders == s.folders
            &&& t.task_state.selected matches Some(k) && k < outline(s, i).len() && outline(
                s,
                i,
            )[k as int].index_path == target
        }),
{
    let path = selected_path(s).unwrap();
    let target = if to_root {
        path.take(1)
    } else {
        path.drop_last()
    };
    let i = active(s).unwrap();
    let rows = outline(s, i);
    let c: int = match s.task_state.selected {
        Some(c) => c as int,
        None => 0,
    };
    let m: int = if to_root {
        1
    } else {
        path.len() - 1
    };
    crate::tree::lemma_flat_ancestors_shown(s.folders[i].tasks, 0, Seq::empty(), c, m);
    let j = choose|j: int| 0 <= j < c && #[trigger] rows[j].index_path == rows[c].index_path.take(m);
    assert(path.take(m) == target);
    crate::state::lemma_first_row_where(rows, RowTest::Path(target));
    assert(crate::state::passes(rows[j], RowTest::Path(target)));
}

/// Space on a task without sub-tasks flips that task between done and
/// undone, and bringing its ancestors in line does not undo the flip.
pub proof fn lemma_toggle_flips(s: AppView)
    requires
        after_toggle(s).1 == Step::TrySave,
    ensures
        ({
            let path = selected_path(s).unwrap();
            let i = active(s).unwrap();
            let t = node_at(s.folders[i].tasks, path).unwrap();
            node_at(after_toggle(s).0.folders[i].tasks, path) == Some(
                TaskView { is_done: !t.is_done, ..t },
            )
        }),
{
    let path = selected_path(s).unwrap();
    let i = active(s).unwrap();
    let ts = s.folders[i].tasks;
    let t = node_at(ts, path).unwrap();
    let n = TaskView { is_done: !t.is_done, ..t };
    let ts1 = replace_at(ts, path, n);
    crate::tree::lemma_replace_then_read(ts, path, n);
    assert(path.take(path.len() as int) =~= path);
    crate::tree::lemma_complete_keeps_below(ts1, path, path);
}

/// Esc while an item is being added ends the adding and leaves no draft
/// folder behind.
pub proof fn lemma_cancel_drops_draft_folders(s: AppView)
    requires
        s.new_item_added,
    ensures
        ({
            let t = event_step(s, KeyCode::Esc).0;
            &&& !t.new_item_added
            &&& forall|j: int| 0 <= j < t.folders.len() ==> !(#[trigger] t.folders[j]).is_draft
        }),
{
    let s1 = typed_into_draft(s, KeyCode::Esc);
    crate::state::lemma_finished_folders(s1.folders);
    let t = event_step(s, KeyCode::Esc).0;
    assert forall|j: int| 0 <= j < t.folders.len() implies !(#[trigger] t.folders[j]).is_draft by {
        let f1 = crate::state::finished_folders(s1.folders);
        assert(!f1[j].is_draft);
    }
}

/// Confirming the deletion of a folder removes exactly the selected folder,
/// keeps the others in order, and leaves the folder selection within the
/// list.
pub proof fn lemma_delete_folder_keeps_selection(s: AppView)
    requires
        folder_selection_valid(s),
        s.focus matches FocusView::Popup { on_option_confirm: PopupAction::DeleteFolder, .. },
        s.folder_state.selected is Some,
    ensures
        ({
            let (t, step) = key_step(s, KeyCode::Char('y'));
            &&& t.folders.len() == s.folders.len() - 1
            &&& t.folders == s.folders.remove(s.folder_state.selected.unwrap() as int)
            &&& forall|j: int|
                0 <= j < s.folder_state.selected.unwrap() ==> t.folders[j] == s.folders[j]
            &&& forall|j: int|
                s.folder_state.selected.unwrap() < j < s.folders.len() ==> t.folders[j - 1]
                    == s.folders[j]
            &&& folder_selection_valid(t)
            &&& step == Step::TrySave
            &&& t.focus is Folders
        }),
{
}

/// Confirming the reset of a folder leaves no task of the selected folder
/// done, at any depth, and keeps every task where it was.
pub proof fn lemma_reset_confirm_clears(s: AppView, path: Seq<usize>)
    requires
        s.focus matches FocusView::Popup { on_option_confirm: PopupAction::ResetFolder, .. },
        active(s) is Some,
    ensures
        ({
            let i = active(s).unwrap();
            let t = key_step(s, KeyCode::Char('y')).0;
            &&& node_at(t.folders[i].tasks, path) is Some <==> node_at(s.folders[i].tasks, path) is Some
            &&& node_at(t.folders[i].tasks, path) matches Some(n) ==> !n.is_done
        }),
{
    let i = active(s).unwrap();
    crate::tree::lemma_reset_keeps_shape(s.folders[i].tasks, path);
}

/// Enter asks for a save whenever it changes the state.
pub proof fn lemma_expand_saves_changes(s: AppView)
    ensures
        key_step(s, KeyCode::Enter).0 != s ==> key_step(s, KeyCode::Enter).1 == Step::TrySave,
{
}

/// Confirming the reset of a folder changes no other folder, and keeps the
/// number of folders and the name of the reset one.
pub proof fn lemma_reset_confirm_touches_only_selected(s: AppView)
    requires
        s.focus matches FocusView::Popup { on_option_confirm: PopupAction::ResetFolder, .. },
    ensures
        ({
            let (t, step) = key_step(s, KeyCode::Char('y'));
            &&& t.folders.len() == s.folders.len()
            &&& forall|j: int|
                0 <= j < s.folders.len() && Some(j) != active(s) ==> #[trigger] t.folders[j]
                    == s.folders[j]
            &&& active(s) matches Some(i) ==> t.folders[i].name == s.folders[i].name
                && t.folders[i].tasks.len() == s.folders[i].tasks.len()
            &&& step == Step::TrySave
            &&& t.focus is Folders
        }),
{
    if let Some(i) = active(s) {
        crate::tree::lemma_reset_all(s.folders[i].tasks);
    }
}

/// Space on a selected task without sub-tasks always flips it, from done to
/// undone as well as from undone to done, leaves every other folder as it
/// was, and asks for a save.
pub proof fn lemma_space_flips_leaf(s: AppView)
    requires
        forall|j: int| 0 <= j < s.folders.len() ==> crate::model::fits(#[trigger] s.folders[j].tasks),
        s.focus is Tasks,
        selected_path(s) is Some,
        node_at(s.folders[active(s).unwrap()].tasks, selected_path(s).unwrap()) matches Some(t)
            && t.sub_tasks.len() == 0,
    ensures
        ({
            let path = selected_path(s).unwrap();
            let i = active(s).unwrap();
            let old_task = node_at(s.folders[i].tasks, path).unwrap();
            let (t, step) = key_step(s, KeyCode::Char(' '));
            &&& step == Step::TrySave
            &&& node_at(t.folders[i].tasks, path) matches Some(n) && n.is_done == !old_task.is_done
                && n.description == old_task.description
            &&& crate::tree::task_total(t.folders[i].tasks) == crate::tree::task_total(s.folders[i].tasks)
            &&& crate::tree::draft_count(t.folders[i].tasks) == crate::tree::draft_count(s.folders[i].tasks)
            &&& t.folders.len() == s.folders.len()
            &&& forall|j: int| 0 <= j < s.folders.len() && j != i ==> #[trigger] t.folders[j] == s.folders[j]
        }),
{
    lemma_selected_path_valid(s);
    lemma_toggle_flips(s);
    let path = selected_path(s).unwrap();
    let i = active(s).unwrap();
    let ts = s.folders[i].tasks;
    let old_task = node_at(ts, path).unwrap();
    let n = TaskView { is_done: !old_task.is_done, ..old_task };
    crate::tree::lemma_replace_task_total(ts, path, n);
    crate::tree::lemma_replace_draft_count(ts, path, n);
    crate::tree::lemma_complete_ancestors_counts(replace_at(ts, path, n), path);
}

/// With the tasks focused and a folder selected, `a` always adds exactly one
/// draft task to the selected folder (beside the selected task, or at the top
/// level), changes no other folder, starts the typing in, and selects a row of
/// the outline that holds a draft.
pub proof fn lemma_add_adds_one_draft(s: AppView)
    requires
        forall|j: int| 0 <= j < s.folders.len() ==> crate::model::fits(#[trigger] s.folders[j].tasks),
        s.focus is Tasks,
        active(s) is Some,
    ensures
        ({
            let i = active(s).unwrap();
            let (t, step) = key_step(s, KeyCode::Char('a'));
            &&& crate::tree::draft_count(t.folders[i].tasks) == crate::tree::draft_count(
                s.folders[i].tasks,
            ) + 1
            &&& t.new_item_added
            &&& step == Step::Continue
            &&& t.folders.len() == s.folders.len()
            &&& forall|j: int| 0 <= j < s.folders.len() && j != i ==> #[trigger] t.folders[j] == s.folders[j]
            &&& exists|k: int|
                0 <= k < outline(t, i).len() && #[trigger] outline(t, i)[k].task.is_draft
                    && t.task_state.selected == Some(k as usize)
        }),
{
    let i = active(s).unwrap();
    let ts = s.folders[i].tasks;
    lemma_selected_path_valid(s);
    let d = draft_task();
    assert(crate::tree::drafts_in(d) == 1) by {
        assert(crate::tree::draft_count(d.sub_tasks) == 0);
    }
    crate::tree::lemma_push_draft_count(ts, d);
    let ts2 = with_draft_beside(ts, selected_path(s));
    let q: Seq<usize>;
    if selected_path(s) is Some && selected_path(s).unwrap().len() > 1 {
        let sp = selected_path(s).unwrap();
        let pp = sp.drop_last();
        crate::tree::lemma_remove_via_parent(ts, sp);
        let parent = node_at(ts, pp).unwrap();
        crate::tree::lemma_push_draft_count(parent.sub_tasks, d);
        let np = TaskView { sub_tasks: parent.sub_tasks.push(d), ..parent };
        assert(crate::tree::drafts_in(np) == crate::tree::drafts_in(parent) + 1);
        crate::tree::lemma_replace_draft_count(ts, pp, np);
        // the new draft's path, and its ancestors' being expanded
        crate::tree::lemma_fits_node(ts, pp);
        let l = parent.sub_tasks.len() as usize;
        q = pp.push(l);
        crate::tree::lemma_replace_then_read(ts, pp, np);
        crate::tree::lemma_node_at_child(ts2, pp, l);
        let rows = outline(s, i);
        let c: int = match s.task_state.selected {
            Some(c) => c as int,
            None => 0,
        };
        assert(rows[c].index_path.skip(0) =~= sp);
        assert forall|m: int| 1 <= m < q.len() implies (node_at(ts2, #[trigger] q.take(m)) matches Some(
            a,
        ) && a.expanded) by {
            crate::tree::lemma_flat_ancestors_expanded(ts, 0, Seq::empty(), c, m);
            if m == pp.len() {
                assert(q.take(m) =~= pp);
                assert(sp.take(m) =~= pp);
            } else {
                assert(q.take(m) =~= pp.take(m));
                assert(sp.take(m) =~= pp.take(m));
                crate::tree::lemma_replace_keeps_ancestor_flags(ts, pp, np, m);
            }
        }
    } else {
        q = seq![ts.len() as usize];
        assert(ts2 == ts.push(d));
        assert(q.drop_first() =~= Seq::<usize>::empty());
        assert(node_at(ts2, q) == Some(d));
    }
    assert(node_at(ts2, q) == Some(d));
    crate::tree::lemma_shown_if_ancestors_expanded(ts2, 0, Seq::empty(), q);
    let s2 = AppView { new_item_added: true, ..with_tasks(s, i, ts2) };
    assert(s2.folders[i].tasks == ts2);
    let rows2 = outline(s2, i);
    let k = choose|k: int|
        0 <= k < rows2.len() && #[trigger] rows2[k].index_path == Seq::<usize>::empty() + q
            && rows2[k].task == node_at(ts2, q).unwrap();
    crate::state::lemma_first_row_where(rows2, RowTest::Draft);
    assert(crate::state::passes(rows2[k], RowTest::Draft));
    let k0 = first_row_where(rows2, RowTest::Draft).unwrap();
    assert(active(s2) == Some(i));
    assert(after_add(s) == jump_to_draft(s2));
    let t = key_step(s, KeyCode::Char('a')).0;
    assert(t == jump_to_draft(s2));
    assert(t.folders == s2.folders);
    assert(outline(t, i) == rows2);
    assert(t.task_state.selected == Some(k0 as usize));
    assert(rows2[k0].task.is_draft);
    assert(outline(t, i)[k0].task.is_draft);
    assert(t.folders[i].tasks == ts2);
    assert(crate::tree::draft_count(ts2) == crate::tree::draft_count(ts) + 1);
    assert(t.new_item_added);
    assert(t.folders.len() == s.folders.len());
    assert(forall|j: int| 0 <= j < s.folders.len() && j != i ==> #[trigger] t.folders[j] == s.folders[j]);
}

/// Enter on a task being typed in, with non-blank text, keeps the task as a
/// finished one (one draft fewer, as many tasks) and leaves every ancestor of
/// the selected row done exactly when all of its sub-tasks are; the typing in
/// ends, no other folder changes, and the folders are saved.
pub proof fn lemma_finish_task_completes_ancestors(s: AppView, k: int)
    requires
        forall|j: int| 0 <= j < s.folders.len() ==> crate::model::fits(#[trigger] s.folders[j].tasks),
        s.new_item_added,
        s.focus is Tasks,
        active(s) is Some,
        first_draft(s.folders[active(s).unwrap()].tasks) is Some,
        !is_blank(
            node_at(
                s.folders[active(s).unwrap()].tasks,
                first_draft(s.folders[active(s).unwrap()].tasks).unwrap(),
            ).unwrap().description,
        ),
        selected_path(s) is Some,
        1 <= k < selected_path(s).unwrap().len(),
    ensures
        ({
            let i = active(s).unwrap();
            let path = selected_path(s).unwrap();
            let (t, step) = event_step(s, KeyCode::Enter);
            &&& step == Step::Save
            &&& !t.new_item_added
            &&& node_at(t.folders[i].tasks, path.take(k)) matches Some(n) ==> n.is_done
                == crate::tree::all_done(n.sub_tasks)
            &&& crate::tree::draft_count(t.folders[i].tasks) + 1 == crate::tree::draft_count(
                s.folders[i].tasks,
            )
            &&& crate::tree::task_total(t.folders[i].tasks) == crate::tree::task_total(s.folders[i].tasks)
            &&& t.folders.len() == s.folders.len()
            &&& forall|j: int| 0 <= j < s.folders.len() && j != i ==> #[trigger] t.folders[j] == s.folders[j]
        }),
{
    let i = active(s).unwrap();
    let ts = s.folders[i].tasks;
    let p = first_draft(ts).unwrap();
    crate::tree::lemma_first_draft_is_draft(ts);
    let d = node_at(ts, p).unwrap();
    crate::tree::lemma_replace_read_back(ts, p);
    assert(TaskView { description: edit_text(d.description, KeyCode::Enter), ..d } == d);
    let s1 = typed_into_draft(s, KeyCode::Enter);
    assert(s1.folders =~= s.folders);
    assert(s1 == s);
    let d2 = TaskView { is_draft: false, ..d };
    let ts1 = replace_at(ts, p, d2);
    crate::tree::lemma_completion_consistent(ts1, selected_path(s).unwrap(), k);
    crate::tree::lemma_replace_task_total(ts, p, d2);
    crate::tree::lemma_replace_draft_count(ts, p, d2);
    crate::tree::lemma_complete_ancestors_counts(ts1, selected_path(s).unwrap());
}

/// Enter on a selected task with sub-tasks always expands it if it was
/// collapsed and collapses it if it was expanded, leaves its text and
/// sub-tasks and every other folder as they were, and asks for a save; on a
/// task without sub-tasks it changes nothing.
pub proof fn lemma_enter_flips_expanded(s: AppView)
    requires
        forall|j: int| 0 <= j < s.folders.len() ==> crate::model::fits(#[trigger] s.folders[j].tasks),
        s.focus is Tasks,
        selected_path(s) is Some,
    ensures
        ({
            let path = selected_path(s).unwrap();
            let i = active(s).unwrap();
            let old_task = node_at(s.folders[i].tasks, path).unwrap();
            let (t, step) = key_step(s, KeyCode::Enter);
            &&& old_task.sub_tasks.len() > 0 ==> {
                &&& step == Step::TrySave
                &&& node_at(t.folders[i].tasks, path) matches Some(n) && n.expanded
                    == !old_task.expanded && n.description == old_task.description && n.sub_tasks
                    == old_task.sub_tasks && n.is_done == old_task.is_done
                &&& t.folders.len() == s.folders.len()
                &&& forall|j: int|
                    0 <= j < s.folders.len() && j != i ==> #[trigger] t.folders[j] == s.folders[j]
            }
            &&& old_task.sub_tasks.len() == 0 ==> t == s && step == Step::Continue
        }),
{
    lemma_selected_path_valid(s);
    let path = selected_path(s).unwrap();
    let i = active(s).unwrap();
    let old_task = node_at(s.folders[i].tasks, path).unwrap();
    crate::tree::lemma_replace_then_read(
        s.folders[i].tasks,
        path,
        TaskView { expanded: !old_task.expanded, ..old_task },
    );
}

/// With the tasks focused, `A` on a selected task always adds one draft to
/// the end of its sub-tasks, expands it, changes no other folder, and starts
/// the typing in.
pub proof fn lemma_add_sub_task_adds_one_draft(s: AppView)
    requires
        forall|j: int| 0 <= j < s.folders.len() ==> crate::model::fits(#[trigger] s.folders[j].tasks),
        s.focus is Tasks,
        selected_path(s) is Some,
    ensures
        ({
            let path = selected_path(s).unwrap();
            let i = active(s).unwrap();
            let old_task = node_at(s.folders[i].tasks, path).unwrap();
            let (t, step) = key_step(s, KeyCode::Char('A'));
            &&& step == Step::Continue
            &&& t.new_item_added
            &&& crate::tree::draft_count(t.folders[i].tasks) == crate::tree::draft_count(
                s.folders[i].tasks,
            ) + 1
            &&& node_at(t.folders[i].tasks, path) matches Some(n) && n.expanded && n.sub_tasks.len()
                == old_task.sub_tasks.len() + 1 && n.sub_tasks.last().is_draft && n.sub_tasks.take(
                old_task.sub_tasks.len() as int,
            ) == old_task.sub_tasks && n.description == old_task.description
            &&& t.folders.len() == s.folders.len()
            &&& forall|j: int| 0 <= j < s.folders.len() && j != i ==> #[trigger] t.folders[j] == s.folders[j]
        }),
{
    lemma_selected_path_valid(s);
    let path = selected_path(s).unwrap();
    let i = active(s).unwrap();
    let ts = s.folders[i].tasks;
    let old_task = node_at(ts, path).unwrap();
    let d = draft_task();
    assert(crate::tree::drafts_in(d) == 1) by {
        assert(crate::tree::draft_count(d.sub_tasks) == 0);
    }
    let np = TaskView { sub_tasks: old_task.sub_tasks.push(d), expanded: true, ..old_task };
    crate::tree::lemma_push_draft_count(old_task.sub_tasks, d);
    crate::tree::lemma_replace_draft_count(ts, path, np);
    crate::tree::lemma_replace_then_read(ts, path, np);
    assert(np.sub_tasks.take(old_task.sub_tasks.len() as int) =~= old_task.sub_tasks);
}

/// While the selected folder is being renamed, a typed character is appended
/// to its name, and Enter or Esc ends the renaming and saves; nothing else
/// changes in any folder.
pub proof fn lemma_rename_folder(s: AppView, key: KeyCode)
    requires
        !s.new_item_added,
        s.item_edit,
        s.focus is Folders,
        active(s) is Some,
    ensures
        ({
            let i = active(s).unwrap();
            let (t, step) = event_step(s, key);
            &&& t.folders.len() == s.folders.len()
            &&& forall|j: int| 0 <= j < s.folders.len() && j != i ==> #[trigger] t.folders[j] == s.folders[j]
            &&& t.folders[i].tasks == s.folders[i].tasks
            &&& key matches KeyCode::Char(c) ==> t.folders[i].name == s.folders[i].name.push(c)
                && step == Step::Continue && t.item_edit && t.folders[i].editing
            &&& (key == KeyCode::Enter || key == KeyCode::Esc) ==> t.folders[i].name
                == s.folders[i].name && step == Step::Save && !t.item_edit && !t.folders[i].editing
        }),
{
}

/// While the selected task is being renamed, a typed character is appended
/// to its text, and Enter or Esc ends the renaming and saves; nothing else
/// changes in the task or in any other folder.
pub proof fn lemma_rename_task(s: AppView, key: KeyCode)
    requires
        forall|j: int| 0 <= j < s.folders.len() ==> crate::model::fits(#[trigger] s.folders[j].tasks),
        !s.new_item_added,
        s.item_edit,
        s.focus is Tasks,
        selected_path(s) is Some,
    ensures
        ({
            let path = selected_path(s).unwrap();
            let i = active(s).unwrap();
            let old_task = node_at(s.folders[i].tasks, path).unwrap();
            let (t, step) = event_step(s, key);
            &&& t.folders.len() == s.folders.len()
            &&& forall|j: int| 0 <= j < s.folders.len() && j != i ==> #[trigger] t.folders[j] == s.folders[j]
            &&& node_at(t.folders[i].tasks, path) matches Some(n) && n.sub_tasks == old_task.sub_tasks
                && n.is_done == old_task.is_done && n.is_draft == old_task.is_draft
            &&& key matches KeyCode::Char(c) ==> node_at(t.folders[i].tasks, path).unwrap().description
                == old_task.description.push(c) && step == Step::Continue && t.item_edit
            &&& (key == KeyCode::Enter || key == KeyCode::Esc) ==> node_at(
                t.folders[i].tasks,
                path,
            ).unwrap().description == old_task.description && step == Step::Save && !t.item_edit
        }),
{
    lemma_selected_path_valid(s);
    let path = selected_path(s).unwrap();
    let i = active(s).unwrap();
    let old_task = node_at(s.folders[i].tasks, path).unwrap();
    let ends = ends_edit(key);
    crate::tree::lemma_replace_then_read(
        s.folders[i].tasks,
        path,
        TaskView { description: edit_text(old_task.description, key), editing: !ends, ..old_task },
    );
}

/// With the tasks focused, `d` on a selected task removes exactly that task
/// and its sub-tasks from the selected folder (the number of tasks drops by
/// their number), brings the remaining ancestors in line with their
/// sub-tasks, changes no other folder, and asks for a save.
pub proof fn lemma_delete_task_removes_subtree(s: AppView, k: int)
    requires
        forall|j: int| 0 <= j < s.folders.len() ==> crate::model::fits(#[trigger] s.folders[j].tasks),
        s.focus is Tasks,
        selected_path(s) is Some,
    ensures
        ({
            let path = selected_path(s).unwrap();
            let i = active(s).unwrap();
            let old_task = node_at(s.folders[i].tasks, path).unwrap();
            let (t, step) = key_step(s, KeyCode::Char('d'));
            &&& step == Step::TrySave
            &&& crate::tree::task_total(t.folders[i].tasks) + crate::tree::task_size(old_task)
                == crate::tree::task_total(s.folders[i].tasks)
            &&& 1 <= k < path.len() ==> (node_at(t.folders[i].tasks, path.take(k)) matches Some(n)
                ==> n.is_done == crate::tree::all_done(n.sub_tasks))
            &&& t.folders.len() == s.folders.len()
            &&& forall|j: int| 0 <= j < s.folders.len() && j != i ==> #[trigger] t.folders[j] == s.folders[j]
        }),
{
    lemma_selected_path_valid(s);
    let path = selected_path(s).unwrap();
    let i = active(s).unwrap();
    let ts = s.folders[i].tasks;
    let removed = crate::tree::remove_at(ts, path);
    crate::tree::lemma_remove_task_total(ts, path);
    crate::tree::lemma_complete_ancestors_counts(removed, path);
    if 1 <= k < path.len() {
        crate::tree::lemma_completion_consistent(removed, path, k);
    }
}

/// `j` selects the next row and `k` the previous one of the focused list
/// (from no selection, the first and the last), changing nothing else.
pub proof fn lemma_move_by_one(s: AppView, down: bool)
    requires
        s.focus is Folders || s.focus is Tasks,
    ensures
        ({
            let (t, step) = key_step(s, KeyCode::Char(if down { 'j' } else { 'k' }));
            let (before, after) = if s.focus is Folders {
                (s.folder_state.selected, t.folder_state.selected)
            } else {
                (s.task_state.selected, t.task_state.selected)
            };
            &&& step == Step::Continue
            &&& t.folders == s.folders
            &&& t.focus == s.focus
            &&& down ==> after == Some(
                match before {
                    Some(i) => if i < usize::MAX {
                        (i + 1) as usize
                    } else {
                        i
                    },
                    None => 0usize,
                },
            )
            &&& !down ==> after == Some(
                match before {
                    Some(i) => if i > 0 {
                        (i - 1) as usize
                    } else {
                        0usize
                    },
                    None => usize::MAX,
                },
            )
            &&& s.focus is Folders ==> t.task_state == s.task_state
            &&& s.focus is Tasks ==> t.folder_state == s.folder_state
        }),
{
}

/// Esc and `q` quit exactly from the folders and the tasks; from the help or
/// a pop-up they go back to the folders without changing any folder.
pub proof fn lemma_quit_only_from_lists(s: AppView, key: KeyCode)
    requires
        key == KeyCode::Esc || key == KeyCode::Char('q'),
    ensures
        ({
            let (t, step) = key_step(s, key);
            &&& (step == Step::Quit) == (s.focus is Folders || s.focus is Tasks)
            &&& t.folders == s.folders
            &&& step != Step::Quit ==> t.focus is Folders
        }),
{
}

} // verus!
