use todo::model::{Status, Task, TaskId, Timestamp, TodoError, TodoFile};

fn ts(h: u8, m: u8, s: u8) -> Timestamp {
    Timestamp { year: 2026, month: 3, day: 14, hour: h, minute: m, second: s }
}

fn plain_task(id: u128, title: &str) -> Task {
    Task {
        id: TaskId { value: id },
        title: String::from(title),
        desc: None,
        status: Status::Pending,
        priority: 0,
        tags: Vec::new(),
        created_at: ts(9, 0, 0),
        updated_at: None,
        completed_at: None,
    }
}

#[test]
fn now_is_well_formed() {
    let t = Timestamp::now();
    assert!(t.year <= 9999);
    assert!((1..=12).contains(&t.month));
    assert!((1..=31).contains(&t.day));
    assert!(t.hour <= 23);
    assert!(t.minute <= 59);
    assert!(t.second <= 59);
}

#[test]
fn builder_requires_title_and_priority_bounds() {
    // An empty title is rejected.
    let r = Task::builder().title(String::new()).build();
    assert_eq!(r.err(), Some(TodoError::Validation));
    // Priority 6 is rejected, 0 and 5 are accepted.
    let r = Task::builder().title(String::from("x")).priority(6).build();
    assert_eq!(r.err(), Some(TodoError::Validation));
    let lo = Task::builder().title(String::from("x")).priority(0).build().unwrap();
    assert_eq!(lo.priority, 0);
    let hi = Task::builder().title(String::from("x")).priority(5).build().unwrap();
    assert_eq!(hi.priority, 5);
}

#[test]
fn builder_fills_fields() {
    let t = Task::builder()
        .title(String::from("write report"))
        .desc(String::from("quarterly"))
        .priority(3)
        .tag(String::from("Work"))
        .tag(String::from("work"))
        .tag(String::from("urgent"))
        .build()
        .unwrap();
    assert_eq!(t.title, "write report");
    assert_eq!(t.desc.as_deref(), Some("quarterly"));
    assert_eq!(t.status, Status::Pending);
    assert_eq!(t.priority, 3);
    // Tags given at build time are deduplicated ignoring case, first
    // spelling kept.
    assert_eq!(t.tags, vec!["Work".to_string(), "urgent".to_string()]);
    assert_eq!(t.updated_at, None);
    assert_eq!(t.completed_at, None);
}

#[test]
fn mark_done_sets_and_keeps_completion() {
    let mut t = plain_task(7, "a");
    let first = ts(10, 0, 0);
    t.mark_done(first);
    assert_eq!(t.status, Status::Done);
    assert_eq!(t.completed_at, Some(first));
    assert_eq!(t.updated_at, Some(first));
    // A second completion at a later time changes nothing.
    let later = ts(11, 30, 0);
    t.mark_done(later);
    assert_eq!(t.status, Status::Done);
    assert_eq!(t.completed_at, Some(first));
    assert_eq!(t.updated_at, Some(first));
}

#[test]
fn set_priority_validates_and_stamps() {
    let mut t = plain_task(7, "a");
    let when = ts(10, 0, 0);
    assert_eq!(t.set_priority(6, when), Err(TodoError::Validation));
    assert_eq!(t.priority, 0);
    assert_eq!(t.updated_at, None);
    assert_eq!(t.set_priority(5, when), Ok(()));
    assert_eq!(t.priority, 5);
    assert_eq!(t.updated_at, Some(when));
    // Setting the same value again is a no-op.
    let later = ts(11, 0, 0);
    assert_eq!(t.set_priority(5, later), Ok(()));
    assert_eq!(t.updated_at, Some(when));
}

#[test]
fn add_tag_deduplicates_ignoring_case() {
    let mut t = plain_task(7, "a");
    let when = ts(10, 0, 0);
    t.add_tag(String::from("Work"), when);
    t.add_tag(String::from("work"), when);
    assert_eq!(t.tags, vec!["Work".to_string()]);
    t.add_tag(String::from("home"), when);
    assert_eq!(t.tags, vec!["Work".to_string(), "home".to_string()]);
}

#[test]
fn new_file_is_empty_at_version_one() {
    let f = TodoFile::new();
    assert_eq!(f.meta.version, 1);
    assert_eq!(f.meta.current_id, 1);
    assert!(f.tasks.is_empty());
}

#[test]
fn bump_version_increments() {
    let mut f = TodoFile::new();
    f.bump_version();
    assert_eq!(f.meta.version, 2);
    f.bump_version();
    assert_eq!(f.meta.version, 3);
}

#[test]
fn fresh_ids_are_distinct() {
    // Random 128-bit identifiers; a collision here would be astonishing.
    let a = TaskId::fresh();
    let b = TaskId::fresh();
    assert_ne!(a.value, b.value);
}

#[test]
fn error_messages_are_nonempty() {
    assert!(!TodoError::Validation.message().is_empty());
    assert!(!TodoError::NotFound.message().is_empty());
    assert!(!TodoError::Duplicate.message().is_empty());
    assert!(!TodoError::Deserialization.message().is_empty());
}
