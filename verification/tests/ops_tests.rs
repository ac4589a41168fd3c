use todo::model::{Status, Task, TaskId, Timestamp, TodoError, TodoFile};
use todo::{add_task, complete_task, list_tasks, remove_task};

fn ts(h: u8, m: u8, s: u8) -> Timestamp {
    Timestamp { year: 2026, month: 3, day: 14, hour: h, minute: m, second: s }
}

fn task_with(id: u128, title: &str, priority: u8, tags: &[&str]) -> Task {
    Task {
        id: TaskId { value: id },
        title: String::from(title),
        desc: None,
        status: Status::Pending,
        priority,
        tags: tags.iter().map(|t| String::from(*t)).collect(),
        created_at: ts(8, 0, 0),
        updated_at: None,
        completed_at: None,
    }
}

fn strings(items: &[&str]) -> Vec<String> {
    items.iter().map(|t| String::from(*t)).collect()
}

#[test]
fn add_appends_and_bumps_version() {
    let f = TodoFile::new();
    let f = add_task(f, task_with(1, "a", 0, &[])).unwrap();
    assert_eq!(f.meta.version, 2);
    assert_eq!(f.tasks.len(), 1);
    let f = add_task(f, task_with(2, "b", 1, &[])).unwrap();
    assert_eq!(f.meta.version, 3);
    assert_eq!(f.tasks.len(), 2);
    assert_eq!(f.tasks[0].title, "a");
    assert_eq!(f.tasks[1].title, "b");
}

#[test]
fn add_rejects_duplicate_identifier() {
    let f = TodoFile::new();
    let f = add_task(f, task_with(1, "a", 0, &[])).unwrap();
    let r = add_task(f, task_with(1, "other", 0, &[]));
    assert_eq!(r.err(), Some(TodoError::Duplicate));
}

#[test]
fn complete_marks_done_and_is_idempotent() {
    let f = TodoFile::new();
    let f = add_task(f, task_with(9, "a", 0, &[])).unwrap();
    let first = ts(10, 0, 0);
    let f = complete_task(f, TaskId { value: 9 }, first).unwrap();
    assert_eq!(f.tasks[0].status, Status::Done);
    assert_eq!(f.tasks[0].completed_at, Some(first));
    // Completing again with a later clock keeps the first timestamp.
    let later = ts(23, 59, 59);
    let f = complete_task(f, TaskId { value: 9 }, later).unwrap();
    assert_eq!(f.tasks[0].status, Status::Done);
    assert_eq!(f.tasks[0].completed_at, Some(first));
}

#[test]
fn complete_missing_is_not_found() {
    let f = TodoFile::new();
    let r = complete_task(f, TaskId { value: 5 }, ts(1, 2, 3));
    assert_eq!(r.err(), Some(TodoError::NotFound));
}

#[test]
fn remove_keeps_order_of_rest() {
    let f = TodoFile::new();
    let f = add_task(f, task_with(1, "a", 0, &[])).unwrap();
    let f = add_task(f, task_with(2, "b", 0, &[])).unwrap();
    let f = add_task(f, task_with(3, "c", 0, &[])).unwrap();
    let f = remove_task(f, TaskId { value: 2 }).unwrap();
    let titles: Vec<&str> = f.tasks.iter().map(|t| t.title.as_str()).collect();
    assert_eq!(titles, vec!["a", "c"]);
}

#[test]
fn remove_missing_is_not_found() {
    let f = TodoFile::new();
    let f = add_task(f, task_with(1, "a", 0, &[])).unwrap();
    let r = remove_task(f, TaskId { value: 2 });
    assert_eq!(r.err(), Some(TodoError::NotFound));
}

#[test]
fn list_filters_by_priority_exactly() {
    let f = TodoFile::new();
    let f = add_task(f, task_with(1, "a", 2, &[])).unwrap();
    let f = add_task(f, task_with(2, "b", 3, &[])).unwrap();
    let all = list_tasks(&f, None, &Vec::new());
    assert_eq!(all.len(), 2);
    let only2 = list_tasks(&f, Some(2), &Vec::new());
    assert_eq!(only2.len(), 1);
    assert_eq!(only2[0].title, "a");
    let none = list_tasks(&f, Some(5), &Vec::new());
    assert!(none.is_empty());
}

#[test]
fn list_filters_by_tag_superset_ignoring_case() {
    let f = TodoFile::new();
    let f = add_task(f, task_with(1, "A", 0, &["urgent", "home"])).unwrap();
    let f = add_task(f, task_with(2, "B", 0, &["urgent"])).unwrap();
    let f = add_task(f, task_with(3, "C", 0, &["home"])).unwrap();
    let urgent = list_tasks(&f, None, &strings(&["urgent"]));
    let titles: Vec<&str> = urgent.iter().map(|t| t.title.as_str()).collect();
    assert_eq!(titles, vec!["A", "B"]);
    let both = list_tasks(&f, None, &strings(&["urgent", "home"]));
    let titles: Vec<&str> = both.iter().map(|t| t.title.as_str()).collect();
    assert_eq!(titles, vec!["A"]);
    // Membership ignores case on both sides.
    let upper = list_tasks(&f, None, &strings(&["URGENT"]));
    assert_eq!(upper.len(), 2);
}

#[test]
fn list_applies_both_filters_together() {
    let f = TodoFile::new();
    let f = add_task(f, task_with(1, "A", 2, &["urgent"])).unwrap();
    let f = add_task(f, task_with(2, "B", 3, &["urgent"])).unwrap();
    let r = list_tasks(&f, Some(2), &strings(&["urgent"]));
    assert_eq!(r.len(), 1);
    assert_eq!(r[0].title, "A");
}

#[test]
fn sequential_adds_lose_nothing() {
    // Two invocations whose read-modify-write cycles do not overlap: the
    // second starts from the state the first wrote. Nothing is claimed of
    // invocations interleaved inside the lock-release-to-rename window.
    let f = TodoFile::new();
    let f = add_task(f, task_with(1, "first", 0, &[])).unwrap();
    let f = add_task(f, task_with(2, "second", 0, &[])).unwrap();
    assert!(f.tasks.iter().any(|t| t.id.value == 1));
    assert!(f.tasks.iter().any(|t| t.id.value == 2));
}
