use task_tui::model::{Folder, Task};
use task_tui::tree::{
    find_draft_mut, flatten_tasks, get_parent_path, get_task_by_path, remove_task_draft,
    reset_tasks, update_parent_completion,
};

fn task(desc: &str, done: bool, subs: Vec<Task>, expanded: bool) -> Task {
    Task {
        is_done: done,
        description: desc.to_string(),
        sub_tasks: subs,
        expanded,
        is_draft: false,
        editing: false,
    }
}

fn sample() -> Vec<Task> {
    vec![
        task(
            "a",
            false,
            vec![task("a0", true, vec![], false), task("a1", false, vec![task("a1x", false, vec![], false)], false)],
            true,
        ),
        task("b", true, vec![task("b0", true, vec![], false)], false),
        task("c", false, vec![], false),
    ]
}

#[test]
fn new_draft_is_an_empty_draft() {
    let t = Task::new_draft();
    assert!(t.is_draft);
    assert!(!t.is_done && !t.expanded && !t.editing);
    assert!(t.description.is_empty() && t.sub_tasks.is_empty());
}

#[test]
fn folder_constructors() {
    let f = Folder::new("Work".to_string());
    assert_eq!(f.name, "Work");
    assert!(!f.is_draft && !f.editing && f.tasks.is_empty());
    let d = Folder::new_draft();
    assert!(d.is_draft && d.name.is_empty());
}

#[test]
fn flatten_lists_expanded_sub_tasks_only() {
    let tasks = sample();
    let rows = flatten_tasks(&tasks, 0, &[]);
    let got: Vec<(String, usize, Vec<usize>)> = rows
        .iter()
        .map(|r| (r.task.description.clone(), r.depth, r.index_path.clone()))
        .collect();
    assert_eq!(
        got,
        vec![
            ("a".to_string(), 0, vec![0]),
            ("a0".to_string(), 1, vec![0, 0]),
            ("a1".to_string(), 1, vec![0, 1]),
            ("b".to_string(), 0, vec![1]),
            ("c".to_string(), 0, vec![2]),
        ]
    );
}

#[test]
fn flatten_with_prefix_and_depth() {
    let tasks = sample();
    let rows = flatten_tasks(&tasks[0].sub_tasks, 3, &[7]);
    assert_eq!(rows.len(), 2);
    assert_eq!(rows[1].index_path, vec![7, 1]);
    assert_eq!(rows[1].depth, 3);
}

#[test]
fn get_task_by_path_reads_and_writes() {
    let mut tasks = sample();
    assert!(get_task_by_path(&mut tasks, &[]).is_none());
    assert!(get_task_by_path(&mut tasks, &[3]).is_none());
    assert!(get_task_by_path(&mut tasks, &[0, 5]).is_none());
    assert_eq!(get_task_by_path(&mut tasks, &[0, 1, 0]).unwrap().description, "a1x");
    get_task_by_path(&mut tasks, &[0, 1, 0]).unwrap().is_done = true;
    assert!(tasks[0].sub_tasks[1].sub_tasks[0].is_done);
    assert_eq!(get_task_by_path(&mut tasks, &[2]).unwrap().description, "c");
}

#[test]
fn parent_path_drops_the_last_index() {
    assert_eq!(get_parent_path(vec![1, 2, 3]), Some(vec![1, 2]));
    assert_eq!(get_parent_path(vec![4]), None);
    assert_eq!(get_parent_path(vec![]), None);
}

#[test]
fn drafts_are_found_and_removed_in_reading_order() {
    let mut tasks = sample();
    assert!(find_draft_mut(&mut tasks).is_none());
    assert!(!remove_task_draft(&mut tasks));
    tasks[0].sub_tasks[1].sub_tasks[0].is_draft = true;
    tasks[2].is_draft = true;
    assert_eq!(find_draft_mut(&mut tasks).unwrap().description, "a1x");
    assert!(remove_task_draft(&mut tasks));
    assert!(tasks[0].sub_tasks[1].sub_tasks.is_empty());
    assert_eq!(find_draft_mut(&mut tasks).unwrap().description, "c");
    assert!(remove_task_draft(&mut tasks));
    assert_eq!(tasks.len(), 2);
    assert!(find_draft_mut(&mut tasks).is_none());
}

#[test]
fn completion_walks_up_the_ancestors() {
    let mut tasks = sample();
    tasks[0].sub_tasks[1].sub_tasks[0].is_done = true;
    update_parent_completion(&mut tasks, vec![0, 1, 0]);
    assert!(tasks[0].sub_tasks[1].is_done);
    assert!(tasks[0].is_done);
    tasks[0].sub_tasks[0].is_done = false;
    update_parent_completion(&mut tasks, vec![0, 0]);
    assert!(!tasks[0].is_done);
    // a top-level path touches nothing
    update_parent_completion(&mut tasks, vec![2]);
    assert!(!tasks[2].is_done);
}

#[test]
fn completion_with_no_children_left_marks_done() {
    let mut tasks = vec![task("p", false, vec![], false)];
    update_parent_completion(&mut tasks, vec![0, 0]);
    assert!(tasks[0].is_done);
}

#[test]
fn reset_marks_everything_undone() {
    let mut tasks = sample();
    reset_tasks(&mut tasks);
    assert!(!tasks[0].sub_tasks[0].is_done);
    assert!(!tasks[1].is_done && !tasks[1].sub_tasks[0].is_done);
    assert_eq!(tasks[0].sub_tasks[1].sub_tasks[0].description, "a1x");
    assert_eq!(tasks.len(), 3);
}

#[test]
fn removing_the_only_draft_leaves_none() {
    let mut tasks = sample();
    tasks[1].sub_tasks[0].is_draft = true;
    assert!(remove_task_draft(&mut tasks));
    assert!(tasks[1].sub_tasks.is_empty());
    assert!(find_draft_mut(&mut tasks).is_none());
    assert!(!remove_task_draft(&mut tasks));
    assert_eq!(tasks.len(), 3);
}
