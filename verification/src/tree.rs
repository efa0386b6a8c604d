use vstd::prelude::*;
use crate::model::{Task, TaskView, lemma_views, views, fits, lemma_fits_parts};

verus! {

broadcast use {
    lemma_views,
    crate::model::lemma_views_update,
    crate::model::lemma_views_remove,
    crate::model::lemma_view_fields,
};

/// The task that `path` leads to below `t`, where the empty path leads to `t`
/// itself and each index picks a sub-task.
pub open spec fn node_below(t: TaskView, rel: Seq<usize>) -> Option<TaskView>
    decreases rel.len(),
{
    if rel.len() == 0 {
        Some(t)
    } else if rel[0] >= t.sub_tasks.len() {
        None
    } else {
        node_below(t.sub_tasks[rel[0] as int], rel.drop_first())
    }
}

/// The task that a non-empty `path` of indices leads to in a list of tasks.
pub open spec fn node_at(f: Seq<TaskView>, path: Seq<usize>) -> Option<TaskView> {
    if path.len() == 0 || path[0] >= f.len() {
        None
    } else {
        node_below(f[path[0] as int], path.drop_first())
    }
}

/// `t` with the task at `rel` below it replaced by `n` (unchanged where `rel`
/// leads nowhere).
pub open spec fn replace_below(t: TaskView, rel: Seq<usize>, n: TaskView) -> TaskView
    decreases rel.len(),
{
    if rel.len() == 0 {
        n
    } else if rel[0] >= t.sub_tasks.len() {
        t
    } else {
        TaskView {
            sub_tasks: t.sub_tasks.update(
                rel[0] as int,
                replace_below(t.sub_tasks[rel[0] as int], rel.drop_first(), n),
            ),
            ..t
        }
    }
}

/// A list of tasks with the task at `path` replaced by `n`.
pub open spec fn replace_at(f: Seq<TaskView>, path: Seq<usize>, n: TaskView) -> Seq<TaskView> {
    if path.len() == 0 || path[0] >= f.len() {
        f
    } else {
        f.update(path[0] as int, replace_below(f[path[0] as int], path.drop_first(), n))
    }
}

/// Follows `path` from index `k` on, below `t`.
fn descend<'a>(t: &'a mut Task, path: &[usize], k: usize) -> (r: Option<&'a mut Task>)
    requires
        k <= path@.len(),
    ensures
        r is Some <==> node_below(old(t)@, path@.skip(k as int)) is Some,
        r matches Some(x) ==> Some(x@) == node_below(old(t)@, path@.skip(k as int)),
        r is Some ==> final(t)@ == replace_below(old(t)@, path@.skip(k as int), final(r.unwrap())@),
        r is None ==> final(t)@ == old(t)@,
    decreases path@.len() - k,
{
    if k == path.len() {
        assert(path@.skip(k as int).len() == 0);
        Some(t)
    } else {
        let i = path[k];
        assert(path@.skip(k as int)[0] == i);
        assert(path@.skip(k as int).drop_first() == path@.skip(k + 1));
        assert(t@.sub_tasks == views(t.sub_tasks@));
        if i < t.sub_tasks.len() {
            assert(t@.sub_tasks[i as int] == t.sub_tasks@[i as int]@);
            let c = &mut t.sub_tasks[i];
            descend(c, path, k + 1)
        } else {
            None
        }
    }
}


/// Gives the task that `path` leads to in `tasks`: the first index picks a
/// task of the list, each further index a sub-task of the task picked before.
/// The empty path and a path with an index out of range lead nowhere.
pub fn get_task_by_path<'a>(tasks: &'a mut Vec<Task>, path: &[usize]) -> (r: Option<&'a mut Task>)
    ensures
        r is Some <==> node_at(views(old(tasks)@), path@) is Some,
        r matches Some(x) ==> Some(x@) == node_at(views(old(tasks)@), path@),
        r is Some ==> views(final(tasks)@) == replace_at(
            views(old(tasks)@),
            path@,
            final(r.unwrap())@,
        ),
        r is None ==> views(final(tasks)@) == views(old(tasks)@),
{
    if path.len() == 0 {
        return None;
    }
    let i = path[0];
    if i >= tasks.len() {
        return None;
    }
    assert(path@.skip(1) == path@.drop_first());
    let t = &mut tasks[i];
    descend(t, path, 1)
}

/// One row of the visible outline: a task, how deeply it is nested, and the
/// path of indices that leads to it.
pub struct FlatItem<'a> {
    pub task: &'a Task,
    pub depth: usize,
    pub index_path: Vec<usize>,
}

/// The value of a [`FlatItem`].
pub struct FlatRow {
    pub task: TaskView,
    pub depth: int,
    pub index_path: Seq<usize>,
}

impl<'a> View for FlatItem<'a> {
    type V = FlatRow;

    open spec fn view(&self) -> FlatRow {
        FlatRow { task: self.task@, depth: self.depth as int, index_path: self.index_path@ }
    }
}

/// The values of a sequence of rows.
pub open spec fn rows(items: Seq<FlatItem>) -> Seq<FlatRow> {
    items.map_values(|x: FlatItem| x@)
}

/// The visible outline of `f`: each task in order, followed by the outline of
/// its sub-tasks when it is expanded, one level deeper. `prefix` is the path
/// of the list `f` itself, `depth` its nesting level.
pub open spec fn flat(f: Seq<TaskView>, depth: int, prefix: Seq<usize>) -> Seq<FlatRow>
    decreases f,
{
    if f.len() == 0 {
        Seq::empty()
    } else {
        let i = f.len() - 1;
        let p = prefix.push(i as usize);
        flat(f.drop_last(), depth, prefix) + seq![FlatRow { task: f[i], depth, index_path: p }] + (
        if f[i].expanded {
            flat(f[i].sub_tasks, depth + 1, p)
        } else {
            Seq::empty()
        })
    }
}

/// How many levels of expanded tasks `f` shows below its own level.
pub open spec fn shown_depth(f: Seq<TaskView>) -> nat
    decreases f,
{
    if f.len() == 0 {
        0
    } else {
        let i = f.len() - 1;
        let d: nat = if f[i].expanded {
            1 + shown_depth(f[i].sub_tasks)
        } else {
            0
        };
        let e = shown_depth(f.drop_last());
        if d < e {
            e
        } else {
            d
        }
    }
}

proof fn lemma_shown_depth(f: Seq<TaskView>, i: int)
    requires
        0 <= i < f.len(),
    ensures
        shown_depth(f.take(i)) <= shown_depth(f),
        f[i].expanded ==> 1 + shown_depth(f[i].sub_tasks) <= shown_depth(f),
    decreases f.len(),
{
    if i < f.len() - 1 {
        lemma_shown_depth(f.drop_last(), i);
        assert(f.drop_last().take(i) == f.take(i));
        assert(f.drop_last()[i] == f[i]);
    } else {
        assert(f.take(i) == f.drop_last());
    }
}

/// Lists the visible outline of `tasks`, whose own path is `current_path` and
/// whose level is `depth`: each task, then, when it is expanded, its
/// sub-tasks one level deeper.
pub fn flatten_tasks<'a>(tasks: &'a [Task], depth: usize, current_path: &[usize]) -> (out: Vec<
    FlatItem<'a>,
>)
    requires
        depth <= current_path@.len() || depth + shown_depth(views(tasks@)) <= usize::MAX,
    ensures
        rows(out@) == flat(views(tasks@), depth as int, current_path@),
    decreases tasks@,
{
    let mut flat_list: Vec<FlatItem<'a>> = Vec::new();
    let ghost f = views(tasks@);
    let mut i: usize = 0;
    while i < tasks.len()
        invariant
            i <= tasks@.len(),
            f == views(tasks@),
            depth <= current_path@.len() || depth + shown_depth(f) <= usize::MAX,
            rows(flat_list@) == flat(f.take(i as int), depth as int, current_path@),
        decreases tasks@.len() - i,
    {
        let task = &tasks[i];
        let mut new_path = vstd::slice::slice_to_vec(current_path);
        new_path.push(i);
        let ghost before = flat_list@;
        flat_list.push(FlatItem { task, depth, index_path: vstd::slice::slice_to_vec(new_path.as_slice()) });
        assert(rows(flat_list@) == rows(before) + seq![FlatRow { task: f[i as int], depth: depth as int, index_path: current_path@.push(i) }]);
        if task.expanded {
            proof {
                lemma_shown_depth(f, i as int);
                assert(f[i as int].sub_tasks == views(task.sub_tasks@));
                assert(decreases_to!(tasks@ => task.sub_tasks@));
                if depth <= current_path@.len() {
                    assert(new_path@.len() == current_path@.len() + 1);
                    assert(depth + 1 <= new_path.len());
                }
            }
            let mut children = flatten_tasks(task.sub_tasks.as_slice(), depth + 1, new_path.as_slice());
            let ghost mid = flat_list@;
            let ghost cv = children@;
            flat_list.append(&mut children);
            assert(rows(flat_list@) =~= rows(mid) + rows(cv));
        }
        proof {
            let g = f.take(i + 1);
            assert(g.drop_last() == f.take(i as int));
            assert(g[i as int] == f[i as int]);
            assert(f[i as int] == tasks@[i as int]@);
            assert(rows(flat_list@) =~= flat(g, depth as int, current_path@));
        }
        i = i + 1;
    }
    assert(f.take(tasks@.len() as int) == f);
    flat_list
}

/// Every row of the outline of `f` (whose own path is `prefix`) carries a path
/// that starts with `prefix` and, below it, leads to the row's task, with the
/// row's depth one less than the number of indices past `prefix`.
pub proof fn lemma_flat_rows(f: Seq<TaskView>, depth: int, prefix: Seq<usize>)
    requires
        fits(f),
    ensures
        forall|k: int|
            0 <= k < flat(f, depth, prefix).len() ==> {
                let r = #[trigger] flat(f, depth, prefix)[k];
                &&& r.index_path.len() > prefix.len()
                &&& r.index_path.take(prefix.len() as int) == prefix
                &&& node_at(f, r.index_path.skip(prefix.len() as int)) == Some(r.task)
                &&& r.depth == depth + r.index_path.len() - prefix.len() - 1
            },
    decreases f,
{
    if f.len() > 0 {
        let i = f.len() - 1;
        let p = prefix.push(i as usize);
        let g = f.drop_last();
        lemma_fits_parts(f, i);
        assert(f.take(i) == g);
        lemma_flat_rows(g, depth, prefix);
        let head = flat(g, depth, prefix);
        let mid = seq![FlatRow { task: f[i], depth, index_path: p }];
        let tail = if f[i].expanded {
            flat(f[i].sub_tasks, depth + 1, p)
        } else {
            Seq::empty()
        };
        if f[i].expanded {
            lemma_flat_rows(f[i].sub_tasks, depth + 1, p);
        }
        assert(flat(f, depth, prefix) == head + mid + tail);
        assert forall|k: int| 0 <= k < flat(f, depth, prefix).len() implies {
            let r = #[trigger] flat(f, depth, prefix)[k];
            &&& r.index_path.len() > prefix.len()
            &&& r.index_path.take(prefix.len() as int) == prefix
            &&& node_at(f, r.index_path.skip(prefix.len() as int)) == Some(r.task)
            &&& r.depth == depth + r.index_path.len() - prefix.len() - 1
        } by {
            let r = flat(f, depth, prefix)[k];
            if k < head.len() {
                assert(r == head[k]);
                let rel = r.index_path.skip(prefix.len() as int);
                assert(node_at(g, rel) == Some(r.task));
                assert(rel[0] < g.len());
                assert(g[rel[0] as int] == f[rel[0] as int]);
            } else if k == head.len() {
                assert(r == mid[0]);
                assert(p.take(prefix.len() as int) =~= prefix);
                assert(p.skip(prefix.len() as int) =~= seq![i as usize]);
                assert(seq![i as usize].drop_first() =~= Seq::<usize>::empty());
            } else {
                let j = k - head.len() - 1;
                assert(r == tail[j]);
                let rel = r.index_path.skip(p.len() as int);
                assert(node_at(f[i].sub_tasks, rel) == Some(r.task));
                assert(r.index_path.take(p.len() as int) == p);
                assert(r.index_path.take(prefix.len() as int) =~= p.take(prefix.len() as int));
                assert(p.take(prefix.len() as int) =~= prefix);
                let full = r.index_path.skip(prefix.len() as int);
                assert(r.index_path.take(p.len() as int)[prefix.len() as int] == p[prefix.len() as int]);
                assert(full[0] == i as usize);
                assert(full.drop_first() =~= rel);
            }
        }
    }
}

/// A task marked undone, with all its sub-tasks, at every depth, marked
/// undone too.
pub open spec fn reset_one(t: TaskView) -> TaskView
    decreases t, 1int,
{
    TaskView { is_done: false, sub_tasks: reset_all(t.sub_tasks), ..t }
}

/// A list of tasks with every task in it, at every depth, marked undone.
pub open spec fn reset_all(f: Seq<TaskView>) -> Seq<TaskView>
    decreases f, 0int,
{
    if f.len() == 0 {
        Seq::empty()
    } else {
        reset_all(f.drop_last()).push(reset_one(f.last()))
    }
}

/// Marking undone keeps the number of tasks and works task by task.
pub broadcast proof fn lemma_reset_all(f: Seq<TaskView>)
    ensures
        (#[trigger] reset_all(f)).len() == f.len(),
        forall|i: int| 0 <= i < f.len() ==> reset_all(f)[i] == reset_one(f[i]),
    decreases f.len(),
{
    if f.len() > 0 {
        lemma_reset_all(f.drop_last());
    }
}

/// Marks every task of `tasks`, and every sub-task at any depth, undone.
pub fn reset_tasks(tasks: &mut Vec<Task>)
    ensures
        views(final(tasks)@) == reset_all(views(old(tasks)@)),
    decreases old(tasks)@,
{
    broadcast use lemma_reset_all;

    let ghost f = views(tasks@);
    let ghost orig = tasks@;
    let n = tasks.len();
    let mut i: usize = 0;
    while i < n
        invariant
            n == tasks@.len(),
            n == orig.len(),
            i <= n,
            f == views(orig),
            orig == old(tasks)@,
            forall|j: int| 0 <= j < i ==> #[trigger] tasks@[j]@ == reset_one(f[j]),
            forall|j: int| i <= j < n ==> #[trigger] tasks@[j] == orig[j],
        decreases n - i,
    {
        proof {
            assert(tasks@[i as int] == orig[i as int]);
            assert(orig == old(tasks)@);
            assert(decreases_to!(old(tasks)@ => tasks@[i as int].sub_tasks@));
        }
        if !tasks[i].sub_tasks.is_empty() {
            reset_tasks(&mut tasks[i].sub_tasks);
        }
        tasks[i].is_done = false;
        proof {
            assert(f[i as int] == orig[i as int]@);
            assert(tasks@[i as int]@ == reset_one(f[i as int]));
        }
        i = i + 1;
    }
    assert(views(tasks@) =~= reset_all(f));
}

proof fn lemma_reset_below(t: TaskView, rel: Seq<usize>)
    ensures
        node_below(reset_one(t), rel) == (match node_below(t, rel) {
            Some(n) => Some(reset_one(n)),
            None => None,
        }),
    decreases rel.len(),
{
    broadcast use lemma_reset_all;

    assert(reset_one(t).sub_tasks == reset_all(t.sub_tasks));
    if rel.len() > 0 && rel[0] < t.sub_tasks.len() {
        lemma_reset_below(t.sub_tasks[rel[0] as int], rel.drop_first());
    }
}

/// After everything is marked undone, every path leads to the task it led to
/// before, marked undone with all its sub-tasks, and to no task where it led
/// to none: the outline keeps its shape and texts, and no task is left done.
pub proof fn lemma_reset_keeps_shape(f: Seq<TaskView>, path: Seq<usize>)
    ensures
        node_at(reset_all(f), path) == (match node_at(f, path) {
            Some(n) => Some(reset_one(n)),
            None => None,
        }),
        node_at(reset_all(f), path) matches Some(n) ==> !n.is_done
            && n.description == node_at(f, path).unwrap().description,
{
    broadcast use lemma_reset_all;

    if path.len() > 0 && path[0] < f.len() {
        lemma_reset_below(f[path[0] as int], path.drop_first());
    }
}

/// Whether every task of a list is done (true of the empty list).
pub open spec fn all_done(ts: Seq<TaskView>) -> bool {
    forall|i: int| 0 <= i < ts.len() ==> #[trigger] ts[i].is_done
}

/// `f` with the task at `p`, if there is one, marked done exactly when all its
/// sub-tasks are.
pub open spec fn complete_at(f: Seq<TaskView>, p: Seq<usize>) -> Seq<TaskView> {
    match node_at(f, p) {
        Some(n) => replace_at(f, p, TaskView { is_done: all_done(n.sub_tasks), ..n }),
        None => f,
    }
}

/// `f` with each ancestor of the task at `path` brought in line with its
/// sub-tasks, from the nearest ancestor up to the top-level one.
pub open spec fn complete_ancestors(f: Seq<TaskView>, path: Seq<usize>) -> Seq<TaskView>
    decreases path.len(),
{
    if path.len() <= 1 {
        f
    } else {
        complete_ancestors(complete_at(f, path.drop_last()), path.drop_last())
    }
}

/// Whether every task of `ts` is done.
fn all_sub_tasks_done(ts: &Vec<Task>) -> (r: bool)
    ensures
        r == all_done(views(ts@)),
{
    let mut i: usize = 0;
    while i < ts.len()
        invariant
            i <= ts@.len(),
            forall|j: int| 0 <= j < i ==> #[trigger] ts@[j].is_done,
        decreases ts@.len() - i,
    {
        if !ts[i].is_done {
            assert(views(ts@)[i as int].is_done == ts@[i as int].is_done);
            return false;
        }
        i = i + 1;
    }
    assert forall|j: int| 0 <= j < views(ts@).len() implies #[trigger] views(ts@)[j].is_done by {
        assert(views(ts@)[j] == ts@[j]@);
    }
    true
}

/// Walks up from the task at `path` and marks each ancestor done exactly when
/// all of its sub-tasks are, nearest ancestor first.
pub fn update_parent_completion(tasks: &mut Vec<Task>, path: Vec<usize>)
    ensures
        views(final(tasks)@) == complete_ancestors(views(old(tasks)@), path@),
{
    let mut path = path;
    let ghost goal = complete_ancestors(views(tasks@), path@);
    while path.len() > 1
        invariant
            complete_ancestors(views(tasks@), path@) == goal,
        decreases path@.len(),
    {
        let ghost before = views(tasks@);
        let ghost p0 = path@;
        path.pop();
        assert(path@ == p0.drop_last());
        if let Some(parent) = get_task_by_path(tasks, path.as_slice()) {
            let done = all_sub_tasks_done(&parent.sub_tasks);
            parent.is_done = done;
        }
        assert(views(tasks@) == complete_at(before, path@));
    }
}

proof fn lemma_replace_below_read(t: TaskView, rel: Seq<usize>, n: TaskView)
    requires
        node_below(t, rel) is Some,
    ensures
        node_below(replace_below(t, rel, n), rel) == Some(n),
    decreases rel.len(),
{
    if rel.len() > 0 {
        lemma_replace_below_read(t.sub_tasks[rel[0] as int], rel.drop_first(), n);
    }
}

/// Writing a task at a path and reading that path gives back what was
/// written, where the path led to a task.
pub proof fn lemma_replace_then_read(f: Seq<TaskView>, path: Seq<usize>, n: TaskView)
    requires
        node_at(f, path) is Some,
    ensures
        node_at(replace_at(f, path, n), path) == Some(n),
{
    lemma_replace_below_read(f[path[0] as int], path.drop_first(), n);
}

proof fn lemma_replace_below_frame(t: TaskView, rel: Seq<usize>, n: TaskView, q: Seq<usize>)
    requires
        node_below(t, rel) matches Some(m) && m.sub_tasks == n.sub_tasks,
        q.len() > rel.len(),
        q.take(rel.len() as int) == rel,
    ensures
        node_below(replace_below(t, rel, n), q) == node_below(t, q),
    decreases rel.len(),
{
    if rel.len() > 0 {
        assert(q[0] == q.take(rel.len() as int)[0]);
        assert(q.drop_first().take(rel.len() - 1) =~= rel.drop_first()) by {
            assert forall|j: int| 0 <= j < rel.len() - 1 implies q.drop_first().take(rel.len() - 1)[j]
                == rel.drop_first()[j] by {
                assert(q.take(rel.len() as int)[j + 1] == q[j + 1]);
            }
        }
        lemma_replace_below_frame(t.sub_tasks[rel[0] as int], rel.drop_first(), n, q.drop_first());
    }
}

/// Writing, at a path, a task with the same sub-tasks as the one there leaves
/// every task below that path as it was.
pub proof fn lemma_replace_keeps_below(f: Seq<TaskView>, path: Seq<usize>, n: TaskView, q: Seq<usize>)
    requires
        node_at(f, path) matches Some(m) && m.sub_tasks == n.sub_tasks,
        q.len() > path.len(),
        q.take(path.len() as int) == path,
    ensures
        node_at(replace_at(f, path, n), q) == node_at(f, q),
{
    assert(q[0] == q.take(path.len() as int)[0]);
    assert(q.drop_first().take(path.len() - 1) =~= path.drop_first()) by {
        assert forall|j: int| 0 <= j < path.len() - 1 implies q.drop_first().take(path.len() - 1)[j]
            == path.drop_first()[j] by {
            assert(q.take(path.len() as int)[j + 1] == q[j + 1]);
        }
    }
    lemma_replace_below_frame(f[path[0] as int], path.drop_first(), n, q.drop_first());
}

/// Bringing the ancestors of `path` in line changes no task at `path` or
/// below it.
pub proof fn lemma_complete_keeps_below(f: Seq<TaskView>, path: Seq<usize>, q: Seq<usize>)
    requires
        q.len() >= path.len(),
        q.take(path.len() as int) == path,
    ensures
        node_at(complete_ancestors(f, path), q) == node_at(f, q),
    decreases path.len(),
{
    if path.len() > 1 {
        let p = path.drop_last();
        assert(q.take(p.len() as int) =~= p) by {
            assert forall|j: int| 0 <= j < p.len() implies q.take(p.len() as int)[j] == p[j] by {
                assert(q.take(path.len() as int)[j] == q[j]);
            }
        }
        lemma_complete_keeps_below(complete_at(f, p), p, q);
        if let Some(m) = node_at(f, p) {
            lemma_replace_keeps_below(f, p, TaskView { is_done: all_done(m.sub_tasks), ..m }, q);
        }
    }
}

/// After the ancestors of the task at `path` are brought in line, each of
/// them that exists is done exactly when all of its sub-tasks are.
pub proof fn lemma_completion_consistent(f: Seq<TaskView>, path: Seq<usize>, k: int)
    requires
        1 <= k < path.len(),
    ensures
        node_at(complete_ancestors(f, path), path.take(k)) matches Some(n) ==> n.is_done
            == all_done(n.sub_tasks),
    decreases path.len(),
{
    let p = path.drop_last();
    let g = complete_at(f, p);
    if k < p.len() {
        assert(p.take(k) =~= path.take(k));
        lemma_completion_consistent(g, p, k);
    } else {
        assert(path.take(k) =~= p);
        assert(p.take(p.len() as int) =~= p);
        lemma_complete_keeps_below(g, p, p);
        if let Some(m) = node_at(f, p) {
            lemma_replace_then_read(f, p, TaskView { is_done: all_done(m.sub_tasks), ..m });
        }
    }
}

/// The path of the parent of the task at `path`: `path` without its last
/// index, for a path of more than one index; top-level tasks have none.
pub fn get_parent_path(path: Vec<usize>) -> (r: Option<Vec<usize>>)
    ensures
        r is Some <==> path@.len() > 1,
        r matches Some(p) ==> p@ == path@.drop_last(),
{
    if path.len() > 1 {
        let mut parent_path = path;
        parent_path.pop();
        return Some(parent_path);
    }
    None
}

/// The path of the first draft of `f` in reading order: a task comes before
/// its sub-tasks, and its sub-tasks before the tasks after it.
pub open spec fn first_draft(f: Seq<TaskView>) -> Option<Seq<usize>>
    decreases f,
{
    if f.len() == 0 {
        None
    } else {
        match first_draft(f.drop_last()) {
            Some(p) => Some(p),
            None => {
                let i = f.len() - 1;
                if f[i].is_draft {
                    Some(seq![i as usize])
                } else {
                    match first_draft(f[i].sub_tasks) {
                        Some(q) => Some(seq![i as usize] + q),
                        None => None,
                    }
                }
            }
        }
    }
}

/// The first draft of a longer list is the one of a shorter front part
/// wherever that part has one.
proof fn lemma_first_draft_prefix(f: Seq<TaskView>, k: int)
    requires
        0 <= k <= f.len(),
        first_draft(f.take(k)) is Some,
    ensures
        first_draft(f) == first_draft(f.take(k)),
    decreases f.len() - k,
{
    if k < f.len() {
        let g = f.take(k + 1);
        assert(g.drop_last() =~= f.take(k));
        assert(f.take(k + 1).take(k) =~= f.take(k));
        lemma_first_draft_prefix(f, k + 1);
    } else {
        assert(f.take(k) =~= f);
    }
}

/// The first draft's path leads to a task, and that task is a draft.
pub proof fn lemma_first_draft_is_draft(f: Seq<TaskView>)
    requires
        fits(f),
        first_draft(f) is Some,
    ensures
        node_at(f, first_draft(f).unwrap()) matches Some(n) && n.is_draft,
    decreases f,
{
    let i = f.len() - 1;
    lemma_fits_parts(f, i);
    assert(f.take(i) == f.drop_last());
    if first_draft(f.drop_last()) is Some {
        lemma_first_draft_is_draft(f.drop_last());
        let p = first_draft(f.drop_last()).unwrap();
        assert(f.drop_last()[p[0] as int] == f[p[0] as int]);
    } else if f[i].is_draft {
        assert(seq![i as usize].drop_first() =~= Seq::<usize>::empty());
    } else {
        lemma_first_draft_is_draft(f[i].sub_tasks);
        let q = first_draft(f[i].sub_tasks).unwrap();
        assert((seq![i as usize] + q).drop_first() =~= q);
    }
}

/// The path of the first draft of `tasks` in reading order.
fn first_draft_path(tasks: &Vec<Task>) -> (r: Option<Vec<usize>>)
    ensures
        r matches Some(p) ==> first_draft(views(tasks@)) == Some(p@),
        r is None ==> first_draft(views(tasks@)) is None,
    decreases tasks@,
{
    let ghost f = views(tasks@);
    proof {
        crate::model::lemma_vec_fits(tasks);
    }
    let mut i: usize = 0;
    while i < tasks.len()
        invariant
            i <= tasks@.len(),
            f == views(tasks@),
            fits(f),
            first_draft(f.take(i as int)) is None,
        decreases tasks@.len() - i,
    {
        let ghost g = f.take(i + 1);
        proof {
            assert(g.drop_last() =~= f.take(i as int));
            assert(g[i as int] == f[i as int]);
            assert(f[i as int] == tasks@[i as int]@);
            assert(decreases_to!(tasks@ => tasks@[i as int].sub_tasks@));
        }
        if tasks[i].is_draft {
            let mut p = Vec::new();
            p.push(i);
            proof {
                lemma_first_draft_prefix(f, i + 1);
                assert(p@ =~= seq![i]);
            }
            return Some(p);
        }
        match first_draft_path(&tasks[i].sub_tasks) {
            Some(q) => {
                let mut p = Vec::new();
                p.push(i);
                let mut j: usize = 0;
                while j < q.len()
                    invariant
                        j <= q@.len(),
                        p@ == seq![i] + q@.take(j as int),
                    decreases q@.len() - j,
                {
                    p.push(q[j]);
                    assert(q@.take(j + 1) == q@.take(j as int).push(q@[j as int]));
                    j = j + 1;
                }
                proof {
                    assert(q@.take(q@.len() as int) =~= q@);
                    lemma_first_draft_prefix(f, i + 1);
                }
                return Some(p);
            },
            None => {},
        }
        i = i + 1;
    }
    assert(f.take(tasks@.len() as int) =~= f);
    None
}

/// Gives the first draft among `tasks` and their sub-tasks, in reading order.
pub fn find_draft_mut<'a>(tasks: &'a mut Vec<Task>) -> (r: Option<&'a mut Task>)
    ensures
        r is Some <==> first_draft(views(old(tasks)@)) is Some,
        r matches Some(x) ==> x@.is_draft && Some(x@) == node_at(
            views(old(tasks)@),
            first_draft(views(old(tasks)@)).unwrap(),
        ),
        r is Some ==> views(final(tasks)@) == replace_at(
            views(old(tasks)@),
            first_draft(views(old(tasks)@)).unwrap(),
            final(r.unwrap())@,
        ),
        r is None ==> views(final(tasks)@) == views(old(tasks)@),
{
    proof {
        crate::model::lemma_vec_fits(tasks);
    }
    match first_draft_path(tasks) {
        Some(p) => {
            proof {
                lemma_first_draft_is_draft(views(tasks@));
            }
            get_task_by_path(tasks, p.as_slice())
        },
        None => None,
    }
}

/// `f` without the task at `path`, sub-tasks included (unchanged where `path`
/// leads nowhere).
pub open spec fn remove_at(f: Seq<TaskView>, path: Seq<usize>) -> Seq<TaskView>
    decreases path.len(),
{
    if path.len() == 0 || path[0] >= f.len() {
        f
    } else if path.len() == 1 {
        f.remove(path[0] as int)
    } else {
        f.update(
            path[0] as int,
            TaskView {
                sub_tasks: remove_at(f[path[0] as int].sub_tasks, path.drop_first()),
                ..f[path[0] as int]
            },
        )
    }
}

/// Removes the first draft among `tasks` and their sub-tasks, in reading
/// order, and tells whether there was one.
pub fn remove_task_draft(tasks: &mut Vec<Task>) -> (r: bool)
    ensures
        r == first_draft(views(old(tasks)@)) is Some,
        r ==> views(final(tasks)@) == remove_at(
            views(old(tasks)@),
            first_draft(views(old(tasks)@)).unwrap(),
        ),
        !r ==> views(final(tasks)@) == views(old(tasks)@),
    decreases old(tasks)@,
{
    let ghost f = views(tasks@);
    let ghost orig = tasks@;
    proof {
        crate::model::lemma_vec_fits(tasks);
    }
    let mut to_remove: Option<usize> = None;
    let mut removed_below = false;
    let n = tasks.len();
    let mut i: usize = 0;
    while i < n
        invariant_except_break
            to_remove is None,
            !removed_below,
            views(tasks@) == f,
            forall|j: int| i <= j < n ==> #[trigger] tasks@[j] == orig[j],
        invariant
            n == orig.len(),
            i <= n,
            orig == old(tasks)@,
            f == views(orig),
            fits(f),
            first_draft(f.take(i as int)) is None,
            to_remove matches Some(k) ==> k == i && i < n && f[i as int].is_draft && views(tasks@) == f
                && n == tasks@.len(),
            removed_below ==> to_remove is None && first_draft(f) is Some && views(tasks@) == remove_at(f, first_draft(f).unwrap()),
        ensures
            to_remove is None && !removed_below ==> i == n && views(tasks@) == f,
        decreases n - i,
    {
        let ghost g = f.take(i + 1);
        proof {
            assert(g.drop_last() =~= f.take(i as int));
            assert(g[i as int] == f[i as int]);
            assert(tasks@[i as int] == orig[i as int]);
            assert(f[i as int] == orig[i as int]@);
            assert(decreases_to!(old(tasks)@ => tasks@[i as int].sub_tasks@));
        }
        if tasks[i].is_draft {
            to_remove = Some(i);
            break;
        }
        let ghost before = tasks@;
        let removed = remove_task_draft(&mut tasks[i].sub_tasks);
        if removed {
            proof {
                let q = first_draft(f[i as int].sub_tasks).unwrap();
                lemma_fits_parts(f, i as int);
                lemma_first_draft_is_draft(f[i as int].sub_tasks);
                lemma_first_draft_prefix(f, i + 1);
                assert((seq![i] + q).drop_first() =~= q);
                assert(tasks@[i as int]@ == (TaskView {
                    sub_tasks: remove_at(f[i as int].sub_tasks, q),
                    ..f[i as int]
                }));
                assert(views(tasks@) == views(before).update(i as int, tasks@[i as int]@));
            }
            removed_below = true;
            break;
        }
        proof {
            assert(views(tasks@) =~= f) by {
                assert forall|j: int| 0 <= j < n implies views(tasks@)[j] == f[j] by {
                    if j != i {
                        assert(tasks@[j] == before[j]);
                    }
                }
            }
        }
        i = i + 1;
    }
    if removed_below {
        return true;
    }
    if let Some(k) = to_remove {
        proof {
            let g = f.take(k + 1);
            assert(g.drop_last() =~= f.take(k as int));
            assert(g[k as int] == f[k as int]);
            lemma_first_draft_prefix(f, k + 1);
            assert(seq![k].len() == 1);
        }
        tasks.remove(k);
        return true;
    }
    proof {
        assert(f.take(n as int) =~= f);
    }
    false
}

proof fn lemma_read_back_below(t: TaskView, rel: Seq<usize>)
    requires
        node_below(t, rel) is Some,
    ensures
        replace_below(t, rel, node_below(t, rel).unwrap()) == t,
    decreases rel.len(),
{
    if rel.len() > 0 {
        lemma_read_back_below(t.sub_tasks[rel[0] as int], rel.drop_first());
        assert(t.sub_tasks.update(rel[0] as int, t.sub_tasks[rel[0] as int]) =~= t.sub_tasks);
    }
}

/// Writing back, at a path, the task read there changes nothing.
pub proof fn lemma_replace_read_back(f: Seq<TaskView>, path: Seq<usize>)
    requires
        node_at(f, path) is Some,
    ensures
        replace_at(f, path, node_at(f, path).unwrap()) == f,
{
    lemma_read_back_below(f[path[0] as int], path.drop_first());
    assert(f.update(path[0] as int, f[path[0] as int]) =~= f);
}

proof fn lemma_remove_via_parent_below(t: TaskView, rel: Seq<usize>)
    requires
        rel.len() >= 1,
        node_below(t, rel) is Some,
    ensures
        node_below(t, rel.drop_last()) matches Some(parent) && rel.last() < parent.sub_tasks.len()
            && replace_below(
            t,
            rel.drop_last(),
            TaskView { sub_tasks: parent.sub_tasks.remove(rel.last() as int), ..parent },
        ) == (TaskView { sub_tasks: remove_at(t.sub_tasks, rel), ..t }),
    decreases rel.len(),
{
    if rel.len() > 1 {
        let c = t.sub_tasks[rel[0] as int];
        let r2 = rel.drop_first();
        lemma_remove_via_parent_below(c, r2);
        assert(rel.drop_last()[0] == rel[0]);
        assert(rel.drop_last().drop_first() =~= r2.drop_last());
        assert(r2.last() == rel.last());
        if r2.len() > 1 {
        } else {
            assert(r2.drop_last().len() == 0);
        }
    } else {
        assert(rel.drop_last().len() == 0);
    }
}

/// Removing the task at a path of more than one index is removing it from the
/// sub-tasks of its parent, which exists.
pub proof fn lemma_remove_via_parent(f: Seq<TaskView>, path: Seq<usize>)
    requires
        path.len() > 1,
        node_at(f, path) is Some,
    ensures
        node_at(f, path.drop_last()) matches Some(parent) && path.last() < parent.sub_tasks.len()
            && replace_at(
            f,
            path.drop_last(),
            TaskView { sub_tasks: parent.sub_tasks.remove(path.last() as int), ..parent },
        ) == remove_at(f, path),
{
    let t = f[path[0] as int];
    let rel = path.drop_first();
    lemma_remove_via_parent_below(t, rel);
    assert(path.drop_last()[0] == path[0]);
    assert(path.drop_last().drop_first() =~= rel.drop_last());
    assert(rel.last() == path.last());
}

/// How many tasks of a list are done.
pub open spec fn done_count(ts: Seq<TaskView>) -> nat
    decreases ts.len(),
{
    if ts.len() == 0 {
        0
    } else {
        done_count(ts.drop_last()) + if ts.last().is_done {
            1nat
        } else {
            0nat
        }
    }
}

proof fn lemma_done_count_bound(ts: Seq<TaskView>)
    ensures
        done_count(ts) <= ts.len(),
    decreases ts.len(),
{
    if ts.len() > 0 {
        lemma_done_count_bound(ts.drop_last());
    }
}

/// How many of `tasks` (not counting sub-tasks) are done, as shown next to a
/// folder's name and a task's text.
pub fn count_done(tasks: &Vec<Task>) -> (r: usize)
    ensures
        r == done_count(views(tasks@)),
{
    let ghost f = views(tasks@);
    let mut done_count_so_far: usize = 0;
    let mut i: usize = 0;
    while i < tasks.len()
        invariant
            i <= tasks@.len(),
            f == views(tasks@),
            done_count_so_far == done_count(f.take(i as int)),
        decreases tasks@.len() - i,
    {
        proof {
            assert(f.take(i + 1).drop_last() =~= f.take(i as int));
            assert(f.take(i + 1).last() == tasks@[i as int]@);
            lemma_done_count_bound(f.take(i as int));
        }
        if tasks[i].is_done {
            done_count_so_far = done_count_so_far + 1;
        }
        i = i + 1;
    }
    assert(f.take(i as int) =~= f);
    done_count_so_far
}

/// In an outline every ancestor of a shown task is shown, on an earlier row:
/// for each row and each longer-than-`prefix` front part of its path there is
/// an earlier row with exactly that path.
pub proof fn lemma_flat_ancestors_shown(f: Seq<TaskView>, depth: int, prefix: Seq<usize>, k: int, m: int)
    requires
        fits(f),
        0 <= k < flat(f, depth, prefix).len(),
        prefix.len() < m < flat(f, depth, prefix)[k].index_path.len(),
    ensures
        exists|j: int|
            0 <= j < k && #[trigger] flat(f, depth, prefix)[j].index_path == flat(
                f,
                depth,
                prefix,
            )[k].index_path.take(m),
    decreases f,
{
    let i = f.len() - 1;
    let p = prefix.push(i as usize);
    let g = f.drop_last();
    lemma_fits_parts(f, i);
    assert(f.take(i) == g);
    let head = flat(g, depth, prefix);
    let mid = seq![FlatRow { task: f[i], depth, index_path: p }];
    let tail = if f[i].expanded {
        flat(f[i].sub_tasks, depth + 1, p)
    } else {
        Seq::empty()
    };
    let all = flat(f, depth, prefix);
    assert(all == head + mid + tail);
    if k < head.len() {
        lemma_flat_ancestors_shown(g, depth, prefix, k, m);
        let j = choose|j: int| 0 <= j < k && #[trigger] head[j].index_path == head[k].index_path.take(m);
        assert(all[j] == head[j]);
        assert(all[k] == head[k]);
        assert(all[j].index_path == all[k].index_path.take(m));
    } else if k == head.len() {
        assert(all[k].index_path == p);
    } else {
        let kk = k - head.len() - 1;
        assert(all[k] == tail[kk]);
        lemma_flat_rows(f[i].sub_tasks, depth + 1, p);
        let r = tail[kk];
        if m > p.len() {
            lemma_flat_ancestors_shown(f[i].sub_tasks, depth + 1, p, kk, m);
            let j2 = choose|j: int| 0 <= j < kk && #[trigger] tail[j].index_path == tail[kk].index_path.take(m);
            assert(all[head.len() + 1 + j2] == tail[j2]);
            assert(all[head.len() + 1 + j2].index_path == all[k].index_path.take(m));
        } else {
            assert(m == p.len());
            assert(r.index_path.take(m) == p);
            assert(all[head.len() as int] == mid[0]);
            assert(all[head.len() as int].index_path == all[k].index_path.take(m));
        }
    }
}

/// How many drafts a task and its sub-tasks, at every depth, hold.
pub open spec fn drafts_in(t: TaskView) -> nat
    decreases t, 1int,
{
    (if t.is_draft {
        1nat
    } else {
        0nat
    }) + draft_count(t.sub_tasks)
}

/// How many drafts a list of tasks holds, at every depth.
pub open spec fn draft_count(f: Seq<TaskView>) -> nat
    decreases f, 0int,
{
    if f.len() == 0 {
        0
    } else {
        draft_count(f.drop_last()) + drafts_in(f.last())
    }
}

proof fn lemma_draft_count_concat(a: Seq<TaskView>, b: Seq<TaskView>)
    ensures
        draft_count(a + b) == draft_count(a) + draft_count(b),
    decreases b.len(),
{
    if b.len() > 0 {
        lemma_draft_count_concat(a, b.drop_last());
        assert((a + b).drop_last() =~= a + b.drop_last());
        assert((a + b).last() == b.last());
    } else {
        assert(a + b =~= a);
    }
}

proof fn lemma_draft_count_split(f: Seq<TaskView>, i: int)
    requires
        0 <= i < f.len(),
    ensures
        draft_count(f) == draft_count(f.take(i)) + drafts_in(f[i]) + draft_count(f.skip(i + 1)),
        draft_count(f.remove(i)) == draft_count(f.take(i)) + draft_count(f.skip(i + 1)),
{
    let one = seq![f[i]];
    lemma_draft_count_concat(f.take(i) + one, f.skip(i + 1));
    lemma_draft_count_concat(f.take(i), one);
    lemma_draft_count_concat(f.take(i), f.skip(i + 1));
    assert(f =~= f.take(i) + one + f.skip(i + 1));
    assert(f.remove(i) =~= f.take(i) + f.skip(i + 1));
    assert(one.drop_last() =~= Seq::<TaskView>::empty());
    assert(draft_count(one.drop_last()) == 0);
    assert(draft_count(one) == drafts_in(f[i]));
}

proof fn lemma_draft_count_update(f: Seq<TaskView>, i: int, t: TaskView)
    requires
        0 <= i < f.len(),
    ensures
        draft_count(f.update(i, t)) + drafts_in(f[i]) == draft_count(f) + drafts_in(t),
{
    let g = f.update(i, t);
    lemma_draft_count_split(f, i);
    lemma_draft_count_split(g, i);
    assert(g.take(i) =~= f.take(i));
    assert(g.skip(i + 1) =~= f.skip(i + 1));
}

/// Removing the task at a path takes away exactly the drafts that task and
/// its sub-tasks hold.
pub proof fn lemma_remove_draft_count(f: Seq<TaskView>, path: Seq<usize>)
    requires
        node_at(f, path) is Some,
    ensures
        draft_count(remove_at(f, path)) + drafts_in(node_at(f, path).unwrap()) == draft_count(f),
    decreases path.len(),
{
    let i = path[0] as int;
    if path.len() == 1 {
        lemma_draft_count_split(f, i);
    } else {
        let t = f[i];
        let rest = path.drop_first();
        assert(node_at(t.sub_tasks, rest) == node_below(t, rest));
        lemma_remove_draft_count(t.sub_tasks, rest);
        let t2 = TaskView { sub_tasks: remove_at(t.sub_tasks, rest), ..t };
        lemma_draft_count_update(f, i, t2);
    }
}

/// Replacing the task at a path trades the drafts it held for the drafts the
/// new task holds.
pub proof fn lemma_replace_draft_count(f: Seq<TaskView>, path: Seq<usize>, n: TaskView)
    requires
        node_at(f, path) is Some,
    ensures
        draft_count(replace_at(f, path, n)) + drafts_in(node_at(f, path).unwrap()) == draft_count(f)
            + drafts_in(n),
    decreases path.len(),
{
    let i = path[0] as int;
    let t = f[i];
    let rest = path.drop_first();
    if rest.len() == 0 {
        lemma_draft_count_update(f, i, n);
    } else {
        lemma_replace_below_draft_count(t, rest, n);
        lemma_draft_count_update(f, i, replace_below(t, rest, n));
    }
}

proof fn lemma_replace_below_draft_count(t: TaskView, rel: Seq<usize>, n: TaskView)
    requires
        node_below(t, rel) is Some,
    ensures
        drafts_in(replace_below(t, rel, n)) + drafts_in(node_below(t, rel).unwrap()) == drafts_in(t)
            + drafts_in(n),
    decreases rel.len(),
{
    if rel.len() > 0 {
        let i = rel[0] as int;
        let c = t.sub_tasks[i];
        lemma_replace_below_draft_count(c, rel.drop_first(), n);
        lemma_draft_count_update(t.sub_tasks, i, replace_below(c, rel.drop_first(), n));
        let t2 = replace_below(t, rel, n);
        assert(drafts_in(t2) == (if t.is_draft {
            1nat
        } else {
            0nat
        }) + draft_count(t2.sub_tasks));
        assert(drafts_in(t) == (if t.is_draft {
            1nat
        } else {
            0nat
        }) + draft_count(t.sub_tasks));
    }
}

/// Appending a task adds the drafts it holds.
pub proof fn lemma_push_draft_count(f: Seq<TaskView>, n: TaskView)
    ensures
        draft_count(f.push(n)) == draft_count(f) + drafts_in(n),
{
    assert(f.push(n).drop_last() =~= f);
}

/// How many tasks a task is, with its sub-tasks at every depth.
pub open spec fn task_size(t: TaskView) -> nat
    decreases t, 1int,
{
    1 + task_total(t.sub_tasks)
}

/// How many tasks a list holds, at every depth.
pub open spec fn task_total(f: Seq<TaskView>) -> nat
    decreases f, 0int,
{
    if f.len() == 0 {
        0
    } else {
        task_total(f.drop_last()) + task_size(f.last())
    }
}

proof fn lemma_task_total_concat(a: Seq<TaskView>, b: Seq<TaskView>)
    ensures
        task_total(a + b) == task_total(a) + task_total(b),
    decreases b.len(),
{
    if b.len() > 0 {
        lemma_task_total_concat(a, b.drop_last());
        assert((a + b).drop_last() =~= a + b.drop_last());
        assert((a + b).last() == b.last());
    } else {
        assert(a + b =~= a);
    }
}

proof fn lemma_task_total_split(f: Seq<TaskView>, i: int)
    requires
        0 <= i < f.len(),
    ensures
        task_total(f) == task_total(f.take(i)) + task_size(f[i]) + task_total(f.skip(i + 1)),
        task_total(f.remove(i)) == task_total(f.take(i)) + task_total(f.skip(i + 1)),
{
    let one = seq![f[i]];
    lemma_task_total_concat(f.take(i) + one, f.skip(i + 1));
    lemma_task_total_concat(f.take(i), one);
    lemma_task_total_concat(f.take(i), f.skip(i + 1));
    assert(f =~= f.take(i) + one + f.skip(i + 1));
    assert(f.remove(i) =~= f.take(i) + f.skip(i + 1));
    assert(one.drop_last() =~= Seq::<TaskView>::empty());
    assert(task_total(one.drop_last()) == 0);
    assert(task_total(one) == task_size(f[i]));
}

proof fn lemma_task_total_update(f: Seq<TaskView>, i: int, t: TaskView)
    requires
        0 <= i < f.len(),
    ensures
        task_total(f.update(i, t)) + task_size(f[i]) == task_total(f) + task_size(t),
{
    let g = f.update(i, t);
    lemma_task_total_split(f, i);
    lemma_task_total_split(g, i);
    assert(g.take(i) =~= f.take(i));
    assert(g.skip(i + 1) =~= f.skip(i + 1));
}

/// Removing the task at a path takes away exactly that task and its
/// sub-tasks.
pub proof fn lemma_remove_task_total(f: Seq<TaskView>, path: Seq<usize>)
    requires
        node_at(f, path) is Some,
    ensures
        task_total(remove_at(f, path)) + task_size(node_at(f, path).unwrap()) == task_total(f),
    decreases path.len(),
{
    let i = path[0] as int;
    if path.len() == 1 {
        lemma_task_total_split(f, i);
    } else {
        let t = f[i];
        let rest = path.drop_first();
        assert(node_at(t.sub_tasks, rest) == node_below(t, rest));
        lemma_remove_task_total(t.sub_tasks, rest);
        let t2 = TaskView { sub_tasks: remove_at(t.sub_tasks, rest), ..t };
        lemma_task_total_update(f, i, t2);
    }
}

/// Replacing the task at a path trades its tasks for those of the new one.
pub proof fn lemma_replace_task_total(f: Seq<TaskView>, path: Seq<usize>, n: TaskView)
    requires
        node_at(f, path) is Some,
    ensures
        task_total(replace_at(f, path, n)) + task_size(node_at(f, path).unwrap()) == task_total(f)
            + task_size(n),
    decreases path.len(),
{
    let i = path[0] as int;
    let t = f[i];
    let rest = path.drop_first();
    if rest.len() == 0 {
        lemma_task_total_update(f, i, n);
    } else {
        lemma_replace_below_task_total(t, rest, n);
        lemma_task_total_update(f, i, replace_below(t, rest, n));
    }
}

proof fn lemma_replace_below_task_total(t: TaskView, rel: Seq<usize>, n: TaskView)
    requires
        node_below(t, rel) is Some,
    ensures
        task_size(replace_below(t, rel, n)) + task_size(node_below(t, rel).unwrap()) == task_size(t)
            + task_size(n),
    decreases rel.len(),
{
    if rel.len() > 0 {
        let i = rel[0] as int;
        let c = t.sub_tasks[i];
        lemma_replace_below_task_total(c, rel.drop_first(), n);
        lemma_task_total_update(t.sub_tasks, i, replace_below(c, rel.drop_first(), n));
        let t2 = replace_below(t, rel, n);
        assert(task_size(t2) == 1 + task_total(t2.sub_tasks));
        assert(task_size(t) == 1 + task_total(t.sub_tasks));
    }
}

/// Appending a task adds it and its sub-tasks.
pub proof fn lemma_push_task_total(f: Seq<TaskView>, n: TaskView)
    ensures
        task_total(f.push(n)) == task_total(f) + task_size(n),
{
    assert(f.push(n).drop_last() =~= f);
}

/// A list has a first draft exactly when it holds a draft.
pub proof fn lemma_first_draft_iff_count(f: Seq<TaskView>)
    ensures
        first_draft(f) is None <==> draft_count(f) == 0,
    decreases f,
{
    if f.len() > 0 {
        lemma_first_draft_iff_count(f.drop_last());
        lemma_first_draft_iff_count(f.last().sub_tasks);
        assert(drafts_in(f.last()) == (if f.last().is_draft {
            1nat
        } else {
            0nat
        }) + draft_count(f.last().sub_tasks));
        assert(draft_count(f) == draft_count(f.drop_last()) + drafts_in(f.last()));
    }
}

/// Removing the only draft of a list leaves no draft: a later search finds
/// none, so a second removal does nothing.
pub proof fn lemma_remove_only_draft(f: Seq<TaskView>)
    requires
        fits(f),
        draft_count(f) == 1,
    ensures
        first_draft(f) is Some,
        draft_count(remove_at(f, first_draft(f).unwrap())) == 0,
        first_draft(remove_at(f, first_draft(f).unwrap())) is None,
{
    lemma_first_draft_iff_count(f);
    lemma_first_draft_is_draft(f);
    let p = first_draft(f).unwrap();
    lemma_remove_draft_count(f, p);
    lemma_first_draft_iff_count(remove_at(f, p));
}

/// Every ancestor of a task shown in an outline is expanded: for each row and
/// each front part of its path below `prefix` (but not the whole path), the
/// task that front part leads to is expanded.
pub proof fn lemma_flat_ancestors_expanded(f: Seq<TaskView>, depth: int, prefix: Seq<usize>, k: int, m: int)
    requires
        fits(f),
        0 <= k < flat(f, depth, prefix).len(),
        1 <= m < flat(f, depth, prefix)[k].index_path.len() - prefix.len(),
    ensures
        node_at(
            f,
            flat(f, depth, prefix)[k].index_path.skip(prefix.len() as int).take(m),
        ) matches Some(a) && a.expanded,
    decreases f,
{
    let i = f.len() - 1;
    let p = prefix.push(i as usize);
    let g = f.drop_last();
    lemma_fits_parts(f, i);
    assert(f.take(i) == g);
    let head = flat(g, depth, prefix);
    let mid = seq![FlatRow { task: f[i], depth, index_path: p }];
    let tail = if f[i].expanded {
        flat(f[i].sub_tasks, depth + 1, p)
    } else {
        Seq::empty()
    };
    let all = flat(f, depth, prefix);
    assert(all == head + mid + tail);
    let rel = all[k].index_path.skip(prefix.len() as int);
    if k < head.len() {
        assert(all[k] == head[k]);
        lemma_flat_ancestors_expanded(g, depth, prefix, k, m);
        lemma_flat_rows(g, depth, prefix);
        let r = rel.take(m);
        assert(r[0] == rel[0]);
        assert(r[0] < g.len());
        assert(g[r[0] as int] == f[r[0] as int]);
    } else if k == head.len() {
        assert(all[k].index_path == p);
    } else {
        let kk = k - head.len() - 1;
        assert(all[k] == tail[kk]);
        lemma_flat_rows(f[i].sub_tasks, depth + 1, p);
        let r = tail[kk];
        assert(r.index_path.take(p.len() as int) == p);
        let rel2 = r.index_path.skip(p.len() as int);
        assert(rel[0] == r.index_path[prefix.len() as int]);
        assert(r.index_path[prefix.len() as int] == r.index_path.take(p.len() as int)[prefix.len() as int]);
        assert(rel[0] == i as usize);
        assert(rel.drop_first() =~= rel2);
        if m == 1 {
            assert(rel.take(1).drop_first() =~= Seq::<usize>::empty());
        } else {
            lemma_flat_ancestors_expanded(f[i].sub_tasks, depth + 1, p, kk, m - 1);
            assert(rel.take(m)[0] == i as usize);
            assert(rel.take(m).drop_first() =~= rel2.take(m - 1));
        }
    }
}

/// A task whose every ancestor is expanded is shown in the outline, on a row
/// holding that task with the path `prefix` followed by its path.
pub proof fn lemma_shown_if_ancestors_expanded(f: Seq<TaskView>, depth: int, prefix: Seq<usize>, q: Seq<usize>)
    requires
        node_at(f, q) is Some,
        forall|m: int| 1 <= m < q.len() ==> (node_at(f, #[trigger] q.take(m)) matches Some(a) && a.expanded),
    ensures
        exists|k: int|
            0 <= k < flat(f, depth, prefix).len() && #[trigger] flat(f, depth, prefix)[k].index_path
                == prefix + q && flat(f, depth, prefix)[k].task == node_at(f, q).unwrap(),
    decreases f,
{
    let i = f.len() - 1;
    let p = prefix.push(i as usize);
    let g = f.drop_last();
    let head = flat(g, depth, prefix);
    let mid = seq![FlatRow { task: f[i], depth, index_path: p }];
    let tail = if f[i].expanded {
        flat(f[i].sub_tasks, depth + 1, p)
    } else {
        Seq::empty()
    };
    let all = flat(f, depth, prefix);
    assert(all == head + mid + tail);
    if (q[0] as int) < i {
        assert(g[q[0] as int] == f[q[0] as int]);
        assert forall|m: int| 1 <= m < q.len() implies (node_at(g, #[trigger] q.take(m)) matches Some(a)
            && a.expanded) by {
            assert(q.take(m)[0] == q[0]);
            assert(node_at(f, q.take(m)) matches Some(a) && a.expanded);
        }
        lemma_shown_if_ancestors_expanded(g, depth, prefix, q);
        let k = choose|k: int|
            0 <= k < head.len() && #[trigger] head[k].index_path == prefix + q && head[k].task
                == node_at(g, q).unwrap();
        assert(all[k] == head[k]);
        assert(node_at(g, q) == node_at(f, q));
        assert(all[k].index_path == prefix + q && all[k].task == node_at(f, q).unwrap());
    } else {
        assert(q[0] as int == i);
        if q.len() == 1 {
            assert(all[head.len() as int] == mid[0]);
            assert(p =~= prefix + q);
            assert(q.drop_first() =~= Seq::<usize>::empty());
            assert(all[head.len() as int].index_path == prefix + q && all[head.len() as int].task
                == node_at(f, q).unwrap());
        } else {
            assert(q.take(1)[0] == q[0]);
            assert(q.take(1).drop_first() =~= Seq::<usize>::empty());
            assert(node_at(f, q.take(1)) matches Some(a) && a.expanded);
            let sub = f[i].sub_tasks;
            let q2 = q.drop_first();
            assert forall|m: int| 1 <= m < q2.len() implies (node_at(sub, #[trigger] q2.take(m)) matches Some(
                a,
            ) && a.expanded) by {
                assert(q.take(m + 1)[0] == q[0]);
                assert(q.take(m + 1).drop_first() =~= q2.take(m));
                assert(node_at(f, q.take(m + 1)) matches Some(a) && a.expanded);
            }
            lemma_shown_if_ancestors_expanded(sub, depth + 1, p, q2);
            let kk = choose|k: int|
                0 <= k < tail.len() && #[trigger] tail[k].index_path == p + q2 && tail[k].task
                    == node_at(sub, q2).unwrap();
            assert(all[head.len() + 1 + kk] == tail[kk]);
            assert(p + q2 =~= prefix + q);
            assert(node_at(sub, q2) == node_at(f, q));
            assert(all[head.len() + 1 + kk].index_path == prefix + q && all[head.len() + 1
                + kk].task == node_at(f, q).unwrap());
        }
    }
}

proof fn lemma_replace_below_keeps_flags(t: TaskView, rel: Seq<usize>, n: TaskView, m: int)
    requires
        node_below(t, rel) is Some,
        0 <= m < rel.len(),
    ensures
        node_below(replace_below(t, rel, n), rel.take(m)) matches Some(a2) && a2.expanded
            == node_below(t, rel.take(m)).unwrap().expanded,
        node_below(t, rel.take(m)) is Some,
    decreases rel.len(),
{
    if m == 0 {
        assert(rel.take(0) =~= Seq::<usize>::empty());
    } else {
        let c = t.sub_tasks[rel[0] as int];
        lemma_replace_below_keeps_flags(c, rel.drop_first(), n, m - 1);
        assert(rel.take(m)[0] == rel[0]);
        assert(rel.take(m).drop_first() =~= rel.drop_first().take(m - 1));
    }
}

/// Writing a task at a path keeps whether each of its ancestors is expanded.
pub proof fn lemma_replace_keeps_ancestor_flags(f: Seq<TaskView>, path: Seq<usize>, n: TaskView, m: int)
    requires
        node_at(f, path) is Some,
        1 <= m < path.len(),
    ensures
        node_at(f, path.take(m)) is Some,
        node_at(replace_at(f, path, n), path.take(m)) matches Some(a2) && a2.expanded == node_at(
            f,
            path.take(m),
        ).unwrap().expanded,
{
    lemma_replace_below_keeps_flags(f[path[0] as int], path.drop_first(), n, m - 1);
    assert(path.take(m)[0] == path[0]);
    assert(path.take(m).drop_first() =~= path.drop_first().take(m - 1));
}

proof fn lemma_node_below_child(t: TaskView, rel: Seq<usize>, j: usize)
    requires
        node_below(t, rel) matches Some(a) && j < a.sub_tasks.len(),
    ensures
        node_below(t, rel.push(j)) == Some(node_below(t, rel).unwrap().sub_tasks[j as int]),
    decreases rel.len(),
{
    if rel.len() == 0 {
        assert(rel.push(j)[0] == j);
        assert(rel.push(j).drop_first() =~= Seq::<usize>::empty());
        assert(node_below(t, rel) == Some(t));
        assert(node_below(t.sub_tasks[j as int], rel.push(j).drop_first()) == Some(t.sub_tasks[j as int]));
    } else {
        lemma_node_below_child(t.sub_tasks[rel[0] as int], rel.drop_first(), j);
        assert(rel.push(j)[0] == rel[0]);
        assert(rel.push(j).drop_first() =~= rel.drop_first().push(j));
    }
}

/// The path of a task followed by the index of one of its sub-tasks leads to
/// that sub-task.
pub proof fn lemma_node_at_child(f: Seq<TaskView>, q: Seq<usize>, j: usize)
    requires
        node_at(f, q) matches Some(a) && j < a.sub_tasks.len(),
    ensures
        node_at(f, q.push(j)) == Some(node_at(f, q).unwrap().sub_tasks[j as int]),
{
    lemma_node_below_child(f[q[0] as int], q.drop_first(), j);
    assert(q.push(j).drop_first() =~= q.drop_first().push(j));
}

proof fn lemma_fits_below(t: TaskView, rel: Seq<usize>)
    requires
        fits(t.sub_tasks),
        node_below(t, rel) is Some,
    ensures
        fits(node_below(t, rel).unwrap().sub_tasks),
    decreases rel.len(),
{
    if rel.len() > 0 {
        lemma_fits_parts(t.sub_tasks, rel[0] as int);
        lemma_fits_below(t.sub_tasks[rel[0] as int], rel.drop_first());
    }
}

/// The sub-tasks of any task of a tree that fits fit too.
pub proof fn lemma_fits_node(f: Seq<TaskView>, path: Seq<usize>)
    requires
        fits(f),
        node_at(f, path) is Some,
    ensures
        fits(node_at(f, path).unwrap().sub_tasks),
{
    lemma_fits_parts(f, path[0] as int);
    lemma_fits_below(f[path[0] as int], path.drop_first());
}

/// Bringing one task in line with its sub-tasks keeps the number of tasks
/// and of drafts.
proof fn lemma_complete_at_counts(f: Seq<TaskView>, p: Seq<usize>)
    ensures
        task_total(complete_at(f, p)) == task_total(f),
        draft_count(complete_at(f, p)) == draft_count(f),
{
    if let Some(n) = node_at(f, p) {
        let n2 = TaskView { is_done: all_done(n.sub_tasks), ..n };
        lemma_replace_task_total(f, p, n2);
        lemma_replace_draft_count(f, p, n2);
    }
}

/// Bringing the ancestors of a task in line keeps the number of tasks and of
/// drafts: only whether tasks are done changes.
pub proof fn lemma_complete_ancestors_counts(f: Seq<TaskView>, path: Seq<usize>)
    ensures
        task_total(complete_ancestors(f, path)) == task_total(f),
        draft_count(complete_ancestors(f, path)) == draft_count(f),
    decreases path.len(),
{
    if path.len() > 1 {
        lemma_complete_at_counts(f, path.drop_last());
        lemma_complete_ancestors_counts(complete_at(f, path.drop_last()), path.drop_last());
    }
}

} // verus!
