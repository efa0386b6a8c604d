use vstd::prelude::*;
use crate::model::{
    Folder, FolderView, TaskView, folder_views, lemma_views,
    lemma_views_update, lemma_views_remove, lemma_views_push, lemma_view_fields,
    lemma_folder_views_update, lemma_folder_views_remove, lemma_folder_views_push,
};
use crate::tree::{
    FlatItem, FlatRow, flat, flatten_tasks, first_draft, remove_at, remove_task_draft, reset_all,
    reset_tasks, rows,
};

verus! {

broadcast use {
    lemma_views,
    lemma_views_update,
    lemma_views_remove,
    lemma_views_push,
    lemma_view_fields,
    lemma_folder_views_update,
    lemma_folder_views_remove,
    lemma_folder_views_push,
    crate::model::lemma_update_same,
};

/// Which row of a list on screen is selected, and which row is shown first.
#[derive(Clone, Copy, Debug)]
pub struct ListState {
    pub offset: usize,
    pub selected: Option<usize>,
}

/// The index one past `i`, kept at `usize::MAX`.
pub open spec fn step_up(i: usize) -> usize {
    if i == usize::MAX {
        i
    } else {
        (i + 1) as usize
    }
}

/// The index one before `i`, kept at 0.
pub open spec fn step_down(i: usize) -> usize {
    if i == 0 {
        0
    } else {
        (i - 1) as usize
    }
}

/// `s` with `index` selected; clearing the selection also scrolls to the top.
pub open spec fn selecting(s: ListState, index: Option<usize>) -> ListState {
    ListState { offset: if index is None { 0 } else { s.offset }, selected: index }
}

impl ListState {
    /// Nothing selected, scrolled to the top.
    pub fn new() -> (s: ListState)
        ensures
            s == (ListState { offset: 0, selected: None }),
    {
        ListState { offset: 0, selected: None }
    }

    /// The selected row, if any.
    pub fn selected(&self) -> (r: Option<usize>)
        ensures
            r == self.selected,
    {
        self.selected
    }

    /// Selects `index`; selecting nothing also scrolls to the top.
    pub fn select(&mut self, index: Option<usize>)
        ensures
            *final(self) == selecting(*old(self), index),
    {
        self.selected = index;
        if index.is_none() {
            self.offset = 0;
        }
    }

    /// Selects the next row, or the first one when nothing is selected. The
    /// index is brought back into the list when the list is drawn.
    pub fn select_next(&mut self)
        ensures
            *final(self) == selecting(
                *old(self),
                Some(
                    match old(self).selected {
                        Some(i) => step_up(i),
                        None => 0,
                    },
                ),
            ),
    {
        let next = match self.selected {
            Some(i) => i.saturating_add(1),
            None => 0,
        };
        self.select(Some(next));
    }

    /// Selects the previous row, or the last one when nothing is selected
    /// (as `usize::MAX`, brought back into the list when the list is drawn).
    pub fn select_previous(&mut self)
        ensures
            *final(self) == selecting(
                *old(self),
                Some(
                    match old(self).selected {
                        Some(i) => step_down(i),
                        None => usize::MAX,
                    },
                ),
            ),
    {
        let previous = match self.selected {
            Some(i) => i.saturating_sub(1),
            None => usize::MAX,
        };
        self.select(Some(previous));
    }
}

/// What confirming a pop-up does.
#[derive(Clone, Copy, Debug, PartialEq, Eq)]
pub enum PopupAction {
    /// Delete the selected folder with all its tasks.
    DeleteFolder,
    /// Mark every task of the selected folder undone.
    ResetFolder,
}

/// Which part of the screen takes the keys.
pub enum Focus {
    Folders,
    Tasks,
    Help,
    /// A question that `y` confirms.
    Popup { text: String, on_option_confirm: PopupAction },
}

/// The value of a [`Focus`].
pub enum FocusView {
    Folders,
    Tasks,
    Help,
    Popup { text: Seq<char>, on_option_confirm: PopupAction },
}

impl View for Focus {
    type V = FocusView;

    open spec fn view(&self) -> FocusView {
        match self {
            Focus::Folders => FocusView::Folders,
            Focus::Tasks => FocusView::Tasks,
            Focus::Help => FocusView::Help,
            Focus::Popup { text, on_option_confirm } => FocusView::Popup {
                text: text@,
                on_option_confirm: *on_option_confirm,
            },
        }
    }
}

/// Whether two focuses are of the same kind, whatever a pop-up asks.
pub open spec fn same_kind(a: FocusView, b: FocusView) -> bool {
    match (a, b) {
        (FocusView::Folders, FocusView::Folders) => true,
        (FocusView::Tasks, FocusView::Tasks) => true,
        (FocusView::Help, FocusView::Help) => true,
        (FocusView::Popup { .. }, FocusView::Popup { .. }) => true,
        _ => false,
    }
}

impl PartialEq for Focus {
    /// Two focuses are equal when they are of the same kind, whatever a
    /// pop-up asks.
    fn eq(&self, other: &Focus) -> (r: bool) {
        match (self, other) {
            (Focus::Folders, Focus::Folders) => true,
            (Focus::Tasks, Focus::Tasks) => true,
            (Focus::Help, Focus::Help) => true,
            (Focus::Popup { .. }, Focus::Popup { .. }) => true,
            _ => false,
        }
    }
}

impl vstd::std_specs::cmp::PartialEqSpecImpl for Focus {
    open spec fn obeys_eq_spec() -> bool {
        true
    }

    open spec fn eq_spec(&self, other: &Focus) -> bool {
        same_kind(self@, other@)
    }
}

/// What the program should do after a key.
#[derive(Clone, Copy, Debug, PartialEq, Eq)]
pub enum Step {
    /// Keep going.
    Continue,
    /// Leave the program.
    Quit,
    /// Write the folders to disk; a failure ends the program.
    Save,
    /// Write the folders to disk; a failure is ignored.
    TrySave,
}

/// The whole state of the editor.
pub struct AppState {
    pub folders: Vec<Folder>,
    pub folder_state: ListState,
    pub task_state: ListState,
    /// A new folder or task is being typed in.
    pub new_item_added: bool,
    /// The selected folder or task is being renamed.
    pub item_edit: bool,
    pub focus: Focus,
}

/// The value of an [`AppState`].
pub struct AppView {
    pub folders: Seq<FolderView>,
    pub folder_state: ListState,
    pub task_state: ListState,
    pub new_item_added: bool,
    pub item_edit: bool,
    pub focus: FocusView,
}

impl View for AppState {
    type V = AppView;

    open spec fn view(&self) -> AppView {
        AppView {
            folders: folder_views(self.folders@),
            folder_state: self.folder_state,
            task_state: self.task_state,
            new_item_added: self.new_item_added,
            item_edit: self.item_edit,
            focus: self.focus@,
        }
    }
}

/// The folder that the editor starts with when nothing was saved.
pub open spec fn general_folder() -> FolderView {
    FolderView { name: "General"@, tasks: Seq::empty(), is_draft: false, editing: false }
}

/// The state the editor starts in, given the folders read back from disk
/// (`None` when nothing could be read or understood): those folders, or a
/// single "General" folder when there are none; the first folder selected.
pub open spec fn initial_state(loaded: Option<Seq<FolderView>>) -> AppView {
    AppView {
        folders: match loaded {
            Some(fs) => if fs.len() > 0 {
                fs
            } else {
                seq![general_folder()]
            },
            None => seq![general_folder()],
        },
        folder_state: ListState { offset: 0, selected: Some(0) },
        task_state: ListState { offset: 0, selected: None },
        new_item_added: false,
        item_edit: false,
        focus: FocusView::Folders,
    }
}

/// The index of the selected folder, where one is selected and it exists.
pub open spec fn active(s: AppView) -> Option<int> {
    match s.folder_state.selected {
        Some(i) => if i < s.folders.len() {
            Some(i as int)
        } else {
            None
        },
        None => None,
    }
}

/// The outline of the tasks of folder `i`.
pub open spec fn outline(s: AppView, i: int) -> Seq<FlatRow> {
    flat(s.folders[i].tasks, 0, Seq::empty())
}

/// The path of the task on the selected row of the selected folder's outline
/// (the first row when no row is selected), where there is such a row.
pub open spec fn selected_path(s: AppView) -> Option<Seq<usize>> {
    match active(s) {
        Some(i) => {
            let c: int = match s.task_state.selected {
                Some(c) => c as int,
                None => 0,
            };
            if c < outline(s, i).len() {
                Some(outline(s, i)[c].index_path)
            } else {
                None
            }
        },
        None => None,
    }
}

/// `s` with the tasks of folder `i` replaced by `tasks`.
pub open spec fn with_tasks(s: AppView, i: int, tasks: Seq<TaskView>) -> AppView {
    AppView { folders: s.folders.update(i, FolderView { tasks, ..s.folders[i] }), ..s }
}

/// What a row is looked for by.
pub enum RowTest {
    /// The row holds a draft.
    Draft,
    /// The row's path is this one.
    Path(Seq<usize>),
}

/// Whether a row passes a test.
pub open spec fn passes(r: FlatRow, test: RowTest) -> bool {
    match test {
        RowTest::Draft => r.task.is_draft,
        RowTest::Path(p) => r.index_path == p,
    }
}

/// The index of the first row that passes `test`.
pub open spec fn first_row_where(rs: Seq<FlatRow>, test: RowTest) -> Option<int>
    decreases rs.len(),
{
    if rs.len() == 0 {
        None
    } else {
        match first_row_where(rs.drop_last(), test) {
            Some(k) => Some(k),
            None => if passes(rs.last(), test) {
                Some(rs.len() - 1)
            } else {
                None
            },
        }
    }
}

/// The first row index that `pred` holds of is the least one.
pub proof fn lemma_first_row_where(rs: Seq<FlatRow>, test: RowTest)
    ensures
        first_row_where(rs, test) matches Some(k) ==> 0 <= k < rs.len() && passes(rs[k], test)
            && forall|j: int| 0 <= j < k ==> !passes(#[trigger] rs[j], test),
        first_row_where(rs, test) is None ==> forall|j: int|
            0 <= j < rs.len() ==> !passes(#[trigger] rs[j], test),
    decreases rs.len(),
{
    if rs.len() > 0 {
        lemma_first_row_where(rs.drop_last(), test);
        assert forall|j: int| 0 <= j < rs.len() - 1 implies rs.drop_last()[j] == rs[j] by {}
    }
}

impl AppState {
    /// The state the editor starts in, given the folders read back from disk.
    pub fn new(loaded: Option<Vec<Folder>>) -> (s: AppState)
        ensures
            s@ == initial_state(
                match loaded {
                    Some(v) => Some(folder_views(v@)),
                    None => None,
                },
            ),
    {
        let folders = match loaded {
            Some(v) => if v.len() > 0 {
                v
            } else {
                general_folders()
            },
            None => general_folders(),
        };
        let mut folder_state = ListState::new();
        folder_state.select(Some(0));
        AppState {
            folders,
            folder_state,
            task_state: ListState::new(),
            new_item_added: false,
            item_edit: false,
            focus: Focus::Folders,
        }
    }

    /// The selected folder, where one is selected and it exists.
    pub fn get_active_folder_mut(&mut self) -> (r: Option<&mut Folder>)
        ensures
            r is Some <==> active(old(self)@) is Some,
            r matches Some(f) ==> f@ == old(self)@.folders[active(old(self)@).unwrap()],
            r is Some ==> final(self)@ == (AppView {
                folders: old(self)@.folders.update(active(old(self)@).unwrap(), final(r.unwrap())@),
                ..old(self)@
            }),
            r is None ==> final(self)@ == old(self)@,
    {
        let idx = self.folder_state.selected()?;
        if idx < self.folders.len() {
            Some(&mut self.folders[idx])
        } else {
            None
        }
    }
}

/// The selected path, where there is one, leads to a task of the selected
/// folder, and the selected folder exists.
pub proof fn lemma_selected_path_valid(s: AppView)
    requires
        forall|i: int| 0 <= i < s.folders.len() ==> crate::model::fits(#[trigger] s.folders[i].tasks),
    ensures
        selected_path(s) matches Some(p) ==> active(s) is Some && crate::tree::node_at(
            s.folders[active(s).unwrap()].tasks,
            p,
        ) is Some && p.len() >= 1,
{
    if let Some(i) = active(s) {
        crate::tree::lemma_flat_rows(s.folders[i].tasks, 0, Seq::empty());
        if let Some(p) = selected_path(s) {
            let c: int = match s.task_state.selected {
                Some(c) => c as int,
                None => 0,
            };
            let r = outline(s, i)[c];
            assert(r.index_path.skip(0) =~= r.index_path);
        }
    }
}

/// Every folder of a state held in memory fits.
pub proof fn lemma_state_fits(s: &AppState)
    ensures
        forall|i: int| 0 <= i < s@.folders.len() ==> crate::model::fits(#[trigger] s@.folders[i].tasks),
{
    assert forall|i: int| 0 <= i < s@.folders.len() implies crate::model::fits(#[trigger] s@.folders[i].tasks) by {
        crate::model::lemma_vec_fits(&s.folders@[i].tasks);
    }
}

/// The path of the task on the selected row of the selected folder's outline
/// (the first row when no row is selected), where there is such a row.
pub fn get_selected_path(app_state: &mut AppState) -> (r: Option<Vec<usize>>)
    ensures
        r matches Some(p) ==> selected_path(old(app_state)@) == Some(p@),
        r is None ==> selected_path(old(app_state)@) is None,
        final(app_state)@ == old(app_state)@,
{
    selected_path_of(app_state)
}

fn selected_path_of(app_state: &AppState) -> (r: Option<Vec<usize>>)
    ensures
        r matches Some(p) ==> selected_path(app_state@) == Some(p@),
        r is None ==> selected_path(app_state@) is None,
{
    let current_index = match app_state.task_state.selected() {
        Some(c) => c,
        None => 0,
    };
    let idx = app_state.folder_state.selected()?;
    if idx >= app_state.folders.len() {
        return None;
    }
    let folder = &app_state.folders[idx];
    let root: Vec<usize> = Vec::new();
    let flat_view = flatten_tasks(folder.tasks.as_slice(), 0, root.as_slice());
    proof {
        assert(app_state@.folders[idx as int] == folder@);
    }
    if current_index < flat_view.len() {
        assert(rows(flat_view@)[current_index as int] == flat_view@[current_index as int]@);
        Some(vstd::slice::slice_to_vec(flat_view[current_index].index_path.as_slice()))
    } else {
        None
    }
}

/// Whether row `item` passes the test: holding a draft when `target` is
/// `None`, having the path `target` otherwise.
fn row_passes(item: &FlatItem, target: Option<&Vec<usize>>) -> (r: bool)
    ensures
        r == passes(item@, row_test(target)),
{
    match target {
        Some(p) => same_path(&item.index_path, p),
        None => item.task.is_draft,
    }
}

/// The test that `row_passes` applies for `target`.
pub open spec fn row_test(target: Option<&Vec<usize>>) -> RowTest {
    match target {
        Some(p) => RowTest::Path(p@),
        None => RowTest::Draft,
    }
}

/// The index of the first row of `items` that passes the test of `target`.
pub(crate) fn first_row(items: &Vec<FlatItem>, target: Option<&Vec<usize>>) -> (r: Option<usize>)
    ensures
        r matches Some(k) ==> first_row_where(rows(items@), row_test(target)) == Some(k as int),
        r is None ==> first_row_where(rows(items@), row_test(target)) is None,
{
    let ghost test = row_test(target);
    let ghost rs = rows(items@);
    let mut k: usize = 0;
    while k < items.len()
        invariant
            k <= items@.len(),
            rs == rows(items@),
            rs.len() == items@.len(),
            test == row_test(target),
            first_row_where(rs.take(k as int), test) is None,
        decreases items@.len() - k,
    {
        proof {
            assert(rs.take(k + 1).drop_last() =~= rs.take(k as int));
            assert(rs[k as int] == items@[k as int]@);
            assert(rs.take(k + 1).last() == rs[k as int]);
        }
        if row_passes(&items[k], target) {
            proof {
                lemma_first_row_prefix(rs, test, k + 1);
            }
            return Some(k);
        }
        k = k + 1;
    }
    assert(rs.take(k as int) =~= rs);
    None
}

/// Whether two paths are equal.
fn same_path(a: &Vec<usize>, b: &Vec<usize>) -> (r: bool)
    ensures
        r == (a@ == b@),
{
    if a.len() != b.len() {
        return false;
    }
    let mut i: usize = 0;
    while i < a.len()
        invariant
            a@.len() == b@.len(),
            i <= a@.len(),
            forall|j: int| 0 <= j < i ==> a@[j] == b@[j],
        decreases a@.len() - i,
    {
        if a[i] != b[i] {
            return false;
        }
        i = i + 1;
    }
    assert(a@ =~= b@);
    true
}

proof fn lemma_first_row_prefix(rs: Seq<FlatRow>, test: RowTest, k: int)
    requires
        0 <= k <= rs.len(),
        first_row_where(rs.take(k), test) is Some,
    ensures
        first_row_where(rs, test) == first_row_where(rs.take(k), test),
    decreases rs.len() - k,
{
    if k < rs.len() {
        assert(rs.take(k + 1).drop_last() =~= rs.take(k));
        assert(rs.take(k + 1).take(k) =~= rs.take(k));
        lemma_first_row_prefix(rs, test, k + 1);
    } else {
        assert(rs.take(k) =~= rs);
    }
}

/// The state after the selection jumps to the first draft row of the
/// selected folder's outline, where there is one.
pub open spec fn jump_to_draft(s: AppView) -> AppView {
    match active(s) {
        Some(i) => match first_row_where(outline(s, i), RowTest::Draft) {
            Some(k) => AppView { task_state: selecting(s.task_state, Some(k as usize)), ..s },
            None => s,
        },
        None => s,
    }
}

/// Selects the first row of the selected folder's outline that holds a
/// draft, where there is one.
pub fn jump_selection_to_draft(app_state: &mut AppState)
    ensures
        final(app_state)@ == jump_to_draft(old(app_state)@),
{
    let idx = match app_state.folder_state.selected() {
        Some(i) => i,
        None => return,
    };
    if idx >= app_state.folders.len() {
        return;
    }
    let root: Vec<usize> = Vec::new();
    let k = {
        let folder = &app_state.folders[idx];
        let flat_tasks = flatten_tasks(folder.tasks.as_slice(), 0, root.as_slice());
        proof {
            assert(app_state@.folders[idx as int] == folder@);
        }
        first_row(&flat_tasks, None)
    };
    if let Some(k) = k {
        app_state.task_state.select(Some(k));
    }
}

/// The folders of `fs` that are not drafts, in order.
pub open spec fn finished_folders(fs: Seq<FolderView>) -> Seq<FolderView>
    decreases fs.len(),
{
    if fs.len() == 0 {
        fs
    } else if fs.last().is_draft {
        finished_folders(fs.drop_last())
    } else {
        finished_folders(fs.drop_last()).push(fs.last())
    }
}

/// No folder that is kept is a draft.
pub proof fn lemma_finished_folders(fs: Seq<FolderView>)
    ensures
        forall|j: int|
            0 <= j < finished_folders(fs).len() ==> !(#[trigger] finished_folders(fs)[j]).is_draft,
    decreases fs.len(),
{
    if fs.len() > 0 {
        lemma_finished_folders(fs.drop_last());
        let r = finished_folders(fs.drop_last());
        if !fs.last().is_draft {
            assert forall|j: int| 0 <= j < r.len() + 1 implies !(#[trigger] r.push(fs.last())[j]).is_draft by {
                if j < r.len() {
                    assert(r.push(fs.last())[j] == r[j]);
                }
            }
        }
    }
}

/// The state with its draft folders dropped, and then the first draft task of
/// the selected folder (by the same index, in the new list) removed.
pub open spec fn without_drafts(s: AppView) -> AppView {
    let s1 = AppView { folders: finished_folders(s.folders), ..s };
    match active(s1) {
        Some(i) => match first_draft(s1.folders[i].tasks) {
            Some(p) => with_tasks(s1, i, remove_at(s1.folders[i].tasks, p)),
            None => s1,
        },
        None => s1,
    }
}

/// Drops the draft folders, then removes the first draft task of the selected
/// folder.
pub fn remove_draft(app_state: &mut AppState)
    ensures
        final(app_state)@ == without_drafts(old(app_state)@),
{
    let ghost orig = app_state@.folders;
    let ghost mut j: int = 0;
    let mut i: usize = 0;
    while i < app_state.folders.len()
        invariant
            0 <= j <= orig.len(),
            folder_views(app_state.folders@) == finished_folders(orig.take(j)) + orig.skip(j),
            i == finished_folders(orig.take(j)).len(),
            app_state.folder_state == old(app_state).folder_state,
            app_state.task_state == old(app_state).task_state,
            app_state.new_item_added == old(app_state).new_item_added,
            app_state.item_edit == old(app_state).item_edit,
            app_state.focus@ == old(app_state).focus@,
            orig == old(app_state)@.folders,
        decreases orig.len() - j,
    {
        let ghost g = orig.take(j + 1);
        proof {
            assert(g.drop_last() =~= orig.take(j));
            assert(folder_views(app_state.folders@)[i as int] == app_state.folders@[i as int]@);
            assert((finished_folders(orig.take(j)) + orig.skip(j))[i as int] == orig.skip(j)[0]);
            assert(g.last() == orig[j]);
            assert(orig.skip(j)[0] == orig[j]);
            assert(orig.skip(j).drop_first() =~= orig.skip(j + 1));
        }
        if app_state.folders[i].is_draft {
            app_state.folders.remove(i);
            proof {
                assert(folder_views(app_state.folders@) =~= finished_folders(g) + orig.skip(j + 1));
                j = j + 1;
            }
        } else {
            proof {
                assert(folder_views(app_state.folders@) =~= finished_folders(g) + orig.skip(j + 1));
                j = j + 1;
            }
            i = i + 1;
        }
    }
    proof {
        assert(orig.take(j) =~= orig) by {
            assert(folder_views(app_state.folders@).len() == i);
        }
        assert(folder_views(app_state.folders@) =~= finished_folders(orig));
    }
    if let Some(folder) = app_state.get_active_folder_mut() {
        remove_task_draft(&mut folder.tasks);
    }
}

/// The state after the selected folder is deleted, and the save it asks for:
/// the selection moves to the new last folder when it falls off the end, and
/// is cleared when no folder is left. Without a selection nothing happens.
pub open spec fn after_delete_folder(s: AppView) -> (AppView, Step) {
    match s.folder_state.selected {
        Some(idx) => {
            let fs = s.folders.remove(idx as int);
            let st = if fs.len() == 0 {
                selecting(s.folder_state, None)
            } else if idx >= fs.len() {
                selecting(s.folder_state, Some((fs.len() - 1) as usize))
            } else {
                s.folder_state
            };
            (AppView { folders: fs, folder_state: st, ..s }, Step::TrySave)
        },
        None => (s, Step::Continue),
    }
}

/// Deletes the selected folder with its tasks.
pub fn delete_folder(app_state: &mut AppState) -> (r: Step)
    requires
        old(app_state).folder_state.selected matches Some(i) ==> i < old(app_state).folders@.len(),
    ensures
        (final(app_state)@, r) == after_delete_folder(old(app_state)@),
{
    if let Some(idx) = app_state.folder_state.selected() {
        app_state.folders.remove(idx);
        if app_state.folders.len() == 0 {
            app_state.folder_state.select(None);
        } else if idx >= app_state.folders.len() {
            let last = app_state.folders.len() - 1;
            app_state.folder_state.select(Some(last));
        }
        return Step::TrySave;
    }
    Step::Continue
}

/// The state after every task of the selected folder is marked undone.
pub open spec fn after_reset_folder(s: AppView) -> AppView {
    match active(s) {
        Some(i) => with_tasks(s, i, reset_all(s.folders[i].tasks)),
        None => s,
    }
}

/// Marks every task of the selected folder undone; the folders are saved in
/// any case.
pub fn reset_folder(app_state: &mut AppState) -> (r: Step)
    ensures
        final(app_state)@ == after_reset_folder(old(app_state)@),
        r == Step::TrySave,
{
    if let Some(folder) = app_state.get_active_folder_mut() {
        reset_tasks(&mut folder.tasks);
    }
    Step::TrySave
}

fn general_folders() -> (v: Vec<Folder>)
    ensures
        folder_views(v@) == seq![general_folder()],
{
    let mut v = Vec::new();
    v.push(Folder::new("General".to_owned()));
    proof {
        reveal_strlit("General");
        assert(folder_views(v@) =~= seq![general_folder()]);
    }
    v
}

} // verus!
