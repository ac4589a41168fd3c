use todo::model::{Status, Task, TaskId, Timestamp, TodoError, TodoFile};
use todo::storage::{load_from, to_json};
use todo::{add_task, complete_task, list_tasks, remove_task};

fn ts(h: u8, m: u8, s: u8) -> Timestamp {
    Timestamp { year: 2026, month: 3, day: 14, hour: h, minute: m, second: s }
}

fn sample_file() -> TodoFile {
    let t1 = Task {
        id: TaskId { value: 0x0123456789abcdef0123456789abcdef },
        title: String::from("say \"hi\" to C:\\temp\nand café ☕"),
        desc: Some(String::from("multi\tline\u{1}text")),
        status: Status::Done,
        priority: 5,
        tags: vec![String::from("Work"), String::from("home")],
        created_at: ts(8, 1, 2),
        updated_at: Some(ts(9, 3, 4)),
        completed_at: Some(ts(9, 3, 4)),
    };
    let t2 = Task {
        id: TaskId { value: 42 },
        title: String::from("plain"),
        desc: None,
        status: Status::InProgress,
        priority: 0,
        tags: Vec::new(),
        created_at: ts(7, 0, 0),
        updated_at: None,
        completed_at: None,
    };
    let f = TodoFile::new();
    let f = add_task(f, t1).unwrap();
    add_task(f, t2).unwrap()
}

fn assert_same_file(a: &TodoFile, b: &TodoFile) {
    assert_eq!(a.meta.version, b.meta.version);
    assert_eq!(a.meta.current_id, b.meta.current_id);
    assert_eq!(a.meta.generated_at, b.meta.generated_at);
    assert_eq!(a.tasks.len(), b.tasks.len());
    for (x, y) in a.tasks.iter().zip(b.tasks.iter()) {
        assert_eq!(x.id, y.id);
        assert_eq!(x.title, y.title);
        assert_eq!(x.desc, y.desc);
        assert_eq!(x.status, y.status);
        assert_eq!(x.priority, y.priority);
        assert_eq!(x.tags, y.tags);
        assert_eq!(x.created_at, y.created_at);
        assert_eq!(x.updated_at, y.updated_at);
        assert_eq!(x.completed_at, y.completed_at);
    }
}

#[test]
fn round_trip_preserves_every_field() {
    let f = sample_file();
    let text = to_json(&f);
    let g = load_from(&text).unwrap();
    assert_same_file(&f, &g);
}

#[test]
fn round_trip_of_empty_file() {
    let f = TodoFile::new();
    let text = to_json(&f);
    let g = load_from(&text).unwrap();
    assert_same_file(&f, &g);
}

#[test]
fn written_text_is_valid_json_with_the_documented_shape() {
    let f = sample_file();
    let text = to_json(&f);
    let v: serde_json::Value = serde_json::from_str(&text).unwrap();
    assert_eq!(v["meta"]["version"].as_u64(), Some(f.meta.version));
    assert_eq!(v["meta"]["current_id"].as_u64(), Some(f.meta.current_id));
    assert!(v["meta"]["generated_at"].is_string());
    let tasks = v["tasks"].as_array().unwrap();
    assert_eq!(tasks.len(), 2);
    assert_eq!(
        tasks[0]["id"].as_str(),
        Some("01234567-89ab-cdef-0123-456789abcdef")
    );
    assert_eq!(tasks[0]["title"].as_str(), Some("say \"hi\" to C:\\temp\nand café ☕"));
    assert_eq!(tasks[0]["desc"].as_str(), Some("multi\tline\u{1}text"));
    assert_eq!(tasks[0]["status"].as_str(), Some("Done"));
    assert_eq!(tasks[0]["priority"].as_u64(), Some(5));
    assert_eq!(tasks[0]["tags"][0].as_str(), Some("Work"));
    assert_eq!(tasks[0]["tags"][1].as_str(), Some("home"));
    assert_eq!(tasks[0]["created_at"].as_str(), Some("2026-03-14T08:01:02Z"));
    assert_eq!(tasks[0]["updated_at"].as_str(), Some("2026-03-14T09:03:04Z"));
    assert_eq!(tasks[0]["completed_at"].as_str(), Some("2026-03-14T09:03:04Z"));
    assert!(tasks[1]["desc"].is_null());
    assert!(tasks[1]["updated_at"].is_null());
    assert!(tasks[1]["completed_at"].is_null());
    assert_eq!(tasks[1]["status"].as_str(), Some("InProgress"));
}

#[test]
fn parser_accepts_other_whitespace() {
    let text = "{ \"meta\": { \"version\": 4, \"current_id\": 1,\r\n\t \"generated_at\": \"2026-03-14T08:01:02Z\" }, \"tasks\": [] }";
    let f = load_from(text).unwrap();
    assert_eq!(f.meta.version, 4);
    assert!(f.tasks.is_empty());
}

#[test]
fn parser_rejects_malformed_text() {
    for bad in [
        "",
        "{}",
        "not json at all",
        "{ \"meta\": { \"version\": x } }",
        // truncated document
        "{ \"meta\": { \"version\": 4, \"current_id\": 1, \"generated_at\": \"2026-03-14T08:01:02Z\" }, \"tasks\": [",
        // month 13 is out of range
        "{ \"meta\": { \"version\": 4, \"current_id\": 1, \"generated_at\": \"2026-13-14T08:01:02Z\" }, \"tasks\": [] }",
        // trailing garbage after the document
        "{ \"meta\": { \"version\": 4, \"current_id\": 1, \"generated_at\": \"2026-03-14T08:01:02Z\" }, \"tasks\": [] } x",
    ] {
        assert_eq!(load_from(bad).err(), Some(TodoError::Deserialization), "{bad}");
    }
}

#[test]
fn parser_rejects_invalid_tasks() {
    let head = "{ \"meta\": { \"version\": 1, \"current_id\": 1, \"generated_at\": \"2026-03-14T08:01:02Z\" }, \"tasks\": [ { \"id\": \"00000000-0000-0000-0000-00000000002a\", ";
    // priority above 5
    let bad_priority = format!(
        "{head}\"title\": \"a\", \"desc\": null, \"status\": \"Pending\", \"priority\": 6, \"tags\": [], \"created_at\": \"2026-03-14T07:00:00Z\", \"updated_at\": null, \"completed_at\": null }} ] }}"
    );
    assert!(load_from(&bad_priority).is_err());
    // empty title
    let bad_title = format!(
        "{head}\"title\": \"\", \"desc\": null, \"status\": \"Pending\", \"priority\": 0, \"tags\": [], \"created_at\": \"2026-03-14T07:00:00Z\", \"updated_at\": null, \"completed_at\": null }} ] }}"
    );
    assert!(load_from(&bad_title).is_err());
    // done without a completion time
    let bad_done = format!(
        "{head}\"title\": \"a\", \"desc\": null, \"status\": \"Done\", \"priority\": 0, \"tags\": [], \"created_at\": \"2026-03-14T07:00:00Z\", \"updated_at\": null, \"completed_at\": null }} ] }}"
    );
    assert!(load_from(&bad_done).is_err());
    // tags equal ignoring case
    let bad_tags = format!(
        "{head}\"title\": \"a\", \"desc\": null, \"status\": \"Pending\", \"priority\": 0, \"tags\": [\"Work\", \"work\"], \"created_at\": \"2026-03-14T07:00:00Z\", \"updated_at\": null, \"completed_at\": null }} ] }}"
    );
    assert!(load_from(&bad_tags).is_err());
}

#[test]
fn end_to_end_scenario_through_the_codec() {
    // Start from a fresh store, as the first open would seed it.
    let f = TodoFile::new();
    let text = to_json(&f);

    // add(path, "buy milk", priority = 2)
    let f = load_from(&text).unwrap();
    let task = Task::builder()
        .title(String::from("buy milk"))
        .priority(2)
        .build()
        .unwrap();
    let id = task.id;
    let f = add_task(f, task).unwrap();
    let text = to_json(&f);

    // list(path, priority_filter = 2) returns the one pending task
    let f = load_from(&text).unwrap();
    let listed = list_tasks(&f, Some(2), &Vec::new());
    assert_eq!(listed.len(), 1);
    assert_eq!(listed[0].title, "buy milk");
    assert_eq!(listed[0].status, Status::Pending);

    // complete(path, id) moves it to Done with a completion time
    let f = complete_task(f, id, ts(12, 0, 0)).unwrap();
    let text = to_json(&f);
    let f = load_from(&text).unwrap();
    assert_eq!(f.tasks[0].status, Status::Done);
    assert!(f.tasks[0].completed_at.is_some());

    // remove(path, id) leaves an empty listing
    let f = remove_task(f, id).unwrap();
    let text = to_json(&f);
    let f = load_from(&text).unwrap();
    assert!(list_tasks(&f, None, &Vec::new()).is_empty());

    // removing the same identifier again fails
    let r = remove_task(f, id);
    assert_eq!(r.err(), Some(TodoError::NotFound));
}
