use vstd::prelude::*;

verus! {

/// A to-do item, possibly with nested sub-tasks.
pub struct Task {
    pub is_done: bool,
    pub description: String,
    pub sub_tasks: Vec<Task>,
    /// Whether the sub-tasks are shown.
    pub expanded: bool,
    pub is_draft: bool,
    pub editing: bool,
}

/// The mathematical value of a [`Task`]: the same fields, with the text as a
/// sequence of characters and the sub-tasks as a sequence of values.
#[verifier::ext_equal]
pub struct TaskView {
    pub is_done: bool,
    pub description: Seq<char>,
    pub sub_tasks: Seq<TaskView>,
    pub expanded: bool,
    pub is_draft: bool,
    pub editing: bool,
}

impl View for Task {
    type V = TaskView;

    open spec fn view(&self) -> TaskView
        decreases self,
    {
        TaskView {
            is_done: self.is_done,
            description: self.description@,
            sub_tasks: views(self.sub_tasks@),
            expanded: self.expanded,
            is_draft: self.is_draft,
            editing: self.editing,
        }
    }
}

/// The values of a sequence of tasks, element by element.
pub open spec fn views(ts: Seq<Task>) -> Seq<TaskView>
    decreases ts,
{
    if ts.len() == 0 {
        Seq::empty()
    } else {
        views(ts.drop_last()).push(ts.last().view())
    }
}

/// The values of a sequence of tasks have its length and are taken element by
/// element.
pub broadcast proof fn lemma_views(ts: Seq<Task>)
    ensures
        (#[trigger] views(ts)).len() == ts.len(),
        forall|i: int| 0 <= i < ts.len() ==> views(ts)[i] == ts[i]@,
    decreases ts.len(),
{
    if ts.len() > 0 {
        lemma_views(ts.drop_last());
        assert(views(ts) == views(ts.drop_last()).push(ts.last().view()));
    } else {
        assert(views(ts) == Seq::<TaskView>::empty());
    }
}

impl Task {
    /// A new, empty task that is being typed in.
    pub fn new_draft() -> (t: Task)
        ensures
            t@ == draft_task(),
    {
        Task {
            is_done: false,
            description: String::new(),
            sub_tasks: Vec::new(),
            expanded: false,
            is_draft: true,
            editing: false,
        }
    }
}

/// The value of a new, empty task that is being typed in.
pub open spec fn draft_task() -> TaskView {
    TaskView {
        is_done: false,
        description: Seq::empty(),
        sub_tasks: Seq::empty(),
        expanded: false,
        is_draft: true,
        editing: false,
    }
}

/// A named group of tasks.
pub struct Folder {
    pub name: String,
    pub tasks: Vec<Task>,
    pub is_draft: bool,
    pub editing: bool,
}

/// The value of a [`Folder`].
#[verifier::ext_equal]
pub struct FolderView {
    pub name: Seq<char>,
    pub tasks: Seq<TaskView>,
    pub is_draft: bool,
    pub editing: bool,
}

impl View for Folder {
    type V = FolderView;

    open spec fn view(&self) -> FolderView {
        FolderView {
            name: self.name@,
            tasks: views(self.tasks@),
            is_draft: self.is_draft,
            editing: self.editing,
        }
    }
}

impl Folder {
    /// A finished folder with the given name and no tasks.
    pub fn new(name: String) -> (f: Folder)
        ensures
            f@ == (FolderView { name: name@, tasks: Seq::empty(), is_draft: false, editing: false }),
    {
        Folder { name, tasks: Vec::new(), is_draft: false, editing: false }
    }

    /// A new, empty folder whose name is being typed in.
    pub fn new_draft() -> (f: Folder)
        ensures
            f@ == draft_folder(),
    {
        Folder { name: String::new(), tasks: Vec::new(), is_draft: true, editing: false }
    }
}

/// The value of a new, empty folder whose name is being typed in.
pub open spec fn draft_folder() -> FolderView {
    FolderView { name: Seq::empty(), tasks: Seq::empty(), is_draft: true, editing: false }
}

/// The values of a sequence of folders.
pub open spec fn folder_views(fs: Seq<Folder>) -> Seq<FolderView> {
    fs.map_values(|f: Folder| f@)
}

/// Writing back the element that is already there changes nothing.
pub broadcast proof fn lemma_update_same<A>(s: Seq<A>, i: int, x: A)
    requires
        0 <= i < s.len(),
        x == s[i],
    ensures
        #[trigger] s.update(i, x) == s,
{
    assert(s.update(i, x) =~= s);
}

/// Replacing one folder of a sequence replaces its value in the values.
pub broadcast proof fn lemma_folder_views_update(fs: Seq<Folder>, i: int, f: Folder)
    requires
        0 <= i < fs.len(),
    ensures
        #[trigger] folder_views(fs.update(i, f)) == folder_views(fs).update(i, f@),
{
    assert(folder_views(fs.update(i, f)) =~= folder_views(fs).update(i, f@));
}

/// Removing one folder of a sequence removes its value from the values.
pub broadcast proof fn lemma_folder_views_remove(fs: Seq<Folder>, i: int)
    requires
        0 <= i < fs.len(),
    ensures
        #[trigger] folder_views(fs.remove(i)) == folder_views(fs).remove(i),
{
    assert(folder_views(fs.remove(i)) =~= folder_views(fs).remove(i));
}

/// Appending a folder appends its value.
pub broadcast proof fn lemma_folder_views_push(fs: Seq<Folder>, f: Folder)
    ensures
        #[trigger] folder_views(fs.push(f)) == folder_views(fs).push(f@),
{
    assert(folder_views(fs.push(f)) =~= folder_views(fs).push(f@));
}

/// Appending a task appends its value.
pub broadcast proof fn lemma_views_push(ts: Seq<Task>, t: Task)
    ensures
        #[trigger] views(ts.push(t)) == views(ts).push(t@),
{
    lemma_views(ts);
    lemma_views(ts.push(t));
    assert(views(ts.push(t)) =~= views(ts).push(t@));
}

/// The value of a task, field by field.
pub broadcast proof fn lemma_view_fields(t: Task)
    ensures
        #[trigger] t@ == (TaskView {
            is_done: t.is_done,
            description: t.description@,
            sub_tasks: views(t.sub_tasks@),
            expanded: t.expanded,
            is_draft: t.is_draft,
            editing: t.editing,
        }),
{
}

/// Removing one task of a sequence removes its value from the values.
pub broadcast proof fn lemma_views_remove(ts: Seq<Task>, i: int)
    requires
        0 <= i < ts.len(),
    ensures
        #[trigger] views(ts.remove(i)) == views(ts).remove(i),
{
    lemma_views(ts);
    lemma_views(ts.remove(i));
    assert(views(ts.remove(i)) =~= views(ts).remove(i));
}

/// Replacing one task of a sequence replaces its value in the values.
pub broadcast proof fn lemma_views_update(ts: Seq<Task>, i: int, t: Task)
    requires
        0 <= i < ts.len(),
    ensures
        #[trigger] views(ts.update(i, t)) == views(ts).update(i, t@),
        t@ == ts[i]@ ==> views(ts.update(i, t)) == views(ts),
{
    lemma_views(ts);
    lemma_views(ts.update(i, t));
    assert(views(ts.update(i, t)) =~= views(ts).update(i, t@));
    if t@ == ts[i]@ {
        assert(views(ts.update(i, t)) =~= views(ts));
    }
}

/// Every list in the tree `f` has a length that an index of type `usize`
/// can address, as every list of tasks held in memory has.
pub open spec fn fits(f: Seq<TaskView>) -> bool
    decreases f,
{
    &&& f.len() <= usize::MAX
    &&& f.len() > 0 ==> fits(f.drop_last()) && fits(f.last().sub_tasks)
}

/// The parts of a tree that fits fit too.
pub proof fn lemma_fits_parts(f: Seq<TaskView>, i: int)
    requires
        fits(f),
        0 <= i < f.len(),
    ensures
        fits(f[i].sub_tasks),
        fits(f.take(i)),
        fits(f.take(i + 1)),
    decreases f.len(),
{
    if i < f.len() - 1 {
        lemma_fits_parts(f.drop_last(), i);
        assert(f.drop_last().take(i) == f.take(i));
        assert(f.drop_last().take(i + 1) == f.take(i + 1));
    } else {
        assert(f.take(i) == f.drop_last());
        assert(f.take(i + 1) == f);
    }
}

proof fn lemma_seq_fits(s: Seq<Task>)
    requires
        s.len() <= usize::MAX,
    ensures
        fits(views(s)),
    decreases s, 0int,
{
    if s.len() > 0 {
        lemma_seq_fits(s.drop_last());
        lemma_task_fits(s.last());
        lemma_views(s);
        lemma_views(s.drop_last());
        assert(views(s).drop_last() == views(s.drop_last()));
    }
}

proof fn lemma_task_fits(t: Task)
    ensures
        fits(views(t.sub_tasks@)),
    decreases t, 1int,
{
    assert(t.sub_tasks.len() <= usize::MAX);
    assert(decreases_to!(t => t.sub_tasks@));
    lemma_seq_fits(t.sub_tasks@);
}

/// The tree of tasks held in a vector fits.
pub proof fn lemma_vec_fits(v: &Vec<Task>)
    ensures
        fits(views(v@)),
{
    assert(v.len() <= usize::MAX);
    lemma_seq_fits(v@);
}

} // verus!
