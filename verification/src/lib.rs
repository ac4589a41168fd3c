//! A local to-do list store: a validated task model, the four mutating and
//! reading operations over the persisted aggregate, and the JSON codec for
//! the on-disk file format.
//!
//! File I/O (opening, advisory locking, temp-file-and-rename) lives outside
//! this library; every function here is a total computation over in-memory
//! values, verified against its contract. A caller runs an operation as
//! read file -> parse -> operate -> serialize -> write back atomically.

pub mod jtext;
pub mod jvalue;
pub mod model;
pub mod storage;

use vstd::prelude::*;

use crate::model::{
    has_tag_ci, lower_seq, spec_bump, spec_mark_done, Status, Task, TaskId, TaskView, Timestamp,
    TodoError, TodoFile, TodoFileView,
};

verus! {

/// The aggregate after a successful `add_task`: the task appended, the
/// version bumped, everything else unchanged.
pub open spec fn spec_add_task(f: TodoFileView, t: TaskView) -> TodoFileView {
    TodoFileView { version: spec_bump(f.version), tasks: f.tasks.push(t), ..f }
}

/// The aggregate after a successful `complete_task`: the task carrying the
/// identifier marked done at `now`, the version bumped.
pub open spec fn spec_complete_task(f: TodoFileView, id: u128, now: Timestamp) -> TodoFileView {
    TodoFileView {
        version: spec_bump(f.version),
        tasks: f.tasks.update(f.idx_of(id), spec_mark_done(f.tasks[f.idx_of(id)], now)),
        ..f
    }
}

/// The aggregate after a successful `remove_task`: the task carrying the
/// identifier taken out, the order of the rest kept, the version bumped.
pub open spec fn spec_remove_task(f: TodoFileView, id: u128) -> TodoFileView {
    TodoFileView { version: spec_bump(f.version), tasks: f.tasks.remove(f.idx_of(id)), ..f }
}

/// Whether a task passes the listing filters: an exact priority match when
/// one is requested, and every requested tag present ignoring case.
pub open spec fn spec_matches_filter(t: TaskView, pf: Option<u8>, tags: Seq<Seq<char>>) -> bool {
    &&& (pf matches Some(p) ==> t.priority == p)
    &&& (forall|i: int| 0 <= i < tags.len() ==> has_tag_ci(t, #[trigger] tags[i]))
}

/// The listing filter as a predicate on task values.
pub open spec fn spec_filter_pred(pf: Option<u8>, tags: Seq<Seq<char>>) -> spec_fn(
    TaskView,
) -> bool {
    |t: TaskView| spec_matches_filter(t, pf, tags)
}

/// The index of the first task carrying `id`, if any.
fn find_index(tasks: &Vec<Task>, id: u128) -> (r: Option<usize>)
    ensures
        r matches Some(i) ==> i < tasks.deep_view().len() && tasks.deep_view()[i as int].id == id,
        r is None ==> forall|k: int|
            0 <= k < tasks.deep_view().len() ==> tasks.deep_view()[k].id != id,
{
    let n = tasks.len();
    let mut i: usize = 0;
    while i < n
        invariant
            n == tasks@.len(),
            i <= n,
            forall|k: int| 0 <= k < i ==> tasks.deep_view()[k].id != id,
        decreases n - i,
    {
        proof {
            assert(tasks.deep_view()[i as int] == tasks@[i as int]@);
        }
        if tasks[i].id.value == id {
            return Some(i);
        }
        i = i + 1;
    }
    None
}

/// Append a task to the aggregate, failing if its identifier is already
/// present; bumps the version on success.
pub fn add_task(data: TodoFile, task: Task) -> (r: Result<TodoFile, TodoError>)
    requires
        data@.wf(),
        task@.wf(),
    ensures
        data@.has_id(task@.id) <==> r is Err,
        r matches Err(e) ==> e == TodoError::Duplicate,
        r matches Ok(d) ==> d@ == spec_add_task(data@, task@) && d@.wf(),
{
    let mut data = data;
    if find_index(&data.tasks, task.id.value).is_some() {
        proof {
            assert(data@.has_id(task@.id));
        }
        return Err(TodoError::Duplicate);
    }
    let ghost oldv = data@;
    let ghost taskv = task@;
    proof {
        assert(!oldv.has_id(taskv.id));
    }
    data.tasks.push(task);
    data.bump_version();
    proof {
        assert(data@.tasks =~= oldv.tasks.push(taskv));
        assert(data@ =~= spec_add_task(oldv, taskv));
        assert forall|a: int, b: int|
            0 <= a < b < data@.tasks.len() implies data@.tasks[a].id != data@.tasks[b].id by {
            if b == oldv.tasks.len() {
                assert(data@.tasks[a] == oldv.tasks[a]);
            }
        }
    }
    Ok(data)
}

/// Mark the task carrying `id` as done at `now`, failing if no task does;
/// bumps the version on success. Completing an already done task keeps its
/// completion time.
pub fn complete_task(data: TodoFile, id: TaskId, now: Timestamp) -> (r: Result<
    TodoFile,
    TodoError,
>)
    requires
        data@.wf(),
        now.wf(),
    ensures
        data@.has_id(id.value) <==> r is Ok,
        r matches Err(e) ==> e == TodoError::NotFound,
        r matches Ok(d) ==> d@ == spec_complete_task(data@, id.value, now) && d@.wf(),
{
    let mut data = data;
    let found = find_index(&data.tasks, id.value);
    match found {
        None => {
            proof {
                assert(!data@.has_id(id.value));
            }
            Err(TodoError::NotFound)
        },
        Some(i) => {
            let ghost oldv = data@;
            proof {
                assert(oldv.has_id(id.value));
                assert(oldv.idx_of(id.value) == i as int) by {
                    let j = oldv.idx_of(id.value);
                    assert(0 <= j < oldv.tasks.len() && oldv.tasks[j].id == id.value);
                }
            }
            let mut t = data.tasks.remove(i);
            t.mark_done(now);
            data.tasks.insert(i, t);
            data.bump_version();
            proof {
                assert(data@.tasks =~= oldv.tasks.update(
                    i as int,
                    spec_mark_done(oldv.tasks[i as int], now),
                ));
                assert(data@ =~= spec_complete_task(oldv, id.value, now));
                assert(data@.wf()) by {
                    assert(forall|k: int|
                        0 <= k < data@.tasks.len() && k != i ==> data@.tasks[k] == oldv.tasks[k]);
                    assert(data@.tasks[i as int].id == oldv.tasks[i as int].id);
                }
            }
            Ok(data)
        },
    }
}

/// Remove the task carrying `id`, failing if no task does; keeps the
/// relative order of the remaining tasks and bumps the version on success.
pub fn remove_task(data: TodoFile, id: TaskId) -> (r: Result<TodoFile, TodoError>)
    requires
        data@.wf(),
    ensures
        data@.has_id(id.value) <==> r is Ok,
        r matches Err(e) ==> e == TodoError::NotFound,
        r matches Ok(d) ==> d@ == spec_remove_task(data@, id.value) && d@.wf(),
{
    let mut data = data;
    let found = find_index(&data.tasks, id.value);
    match found {
        None => {
            proof {
                assert(!data@.has_id(id.value));
            }
            Err(TodoError::NotFound)
        },
        Some(i) => {
            let ghost oldv = data@;
            proof {
                assert(oldv.has_id(id.value));
                assert(oldv.idx_of(id.value) == i as int) by {
                    let j = oldv.idx_of(id.value);
                    assert(0 <= j < oldv.tasks.len() && oldv.tasks[j].id == id.value);
                }
            }
            let _ = data.tasks.remove(i);
            data.bump_version();
            proof {
                assert(data@.tasks =~= oldv.tasks.remove(i as int));
                assert(data@ =~= spec_remove_task(oldv, id.value));
            }
            Ok(data)
        },
    }
}

/// The tasks passing the filters, in collection order. Reading only: the
/// aggregate is untouched and no version is bumped.
pub fn list_tasks(data: &TodoFile, priority_filter: Option<u8>, tag_filter: &Vec<String>) -> (r:
    Vec<Task>)
    ensures
        r.deep_view() == data@.tasks.filter(
            spec_filter_pred(priority_filter, tag_filter.deep_view()),
        ),
{
    let ghost pred = spec_filter_pred(priority_filter, tag_filter.deep_view());
    let mut out: Vec<Task> = Vec::new();
    let n = data.tasks.len();
    let mut i: usize = 0;
    proof {
        reveal(Seq::filter);
        assert(out.deep_view() =~= data@.tasks.take(0).filter(pred));
    }
    while i < n
        invariant
            n == data.tasks@.len(),
            i <= n,
            pred == spec_filter_pred(priority_filter, tag_filter.deep_view()),
            out.deep_view() == data@.tasks.take(i as int).filter(pred),
        decreases n - i,
    {
        proof {
            reveal(Seq::filter);
            assert(data@.tasks.take(i + 1).drop_last() =~= data@.tasks.take(i as int));
            assert(data@.tasks.take(i + 1).last() == data@.tasks[i as int]);
            assert(data@.tasks[i as int] == data.tasks@[i as int]@);
        }
        if task_matches(&data.tasks[i], &priority_filter, tag_filter) {
            let ghost out0 = out.deep_view();
            out.push(data.tasks[i].clone());
            proof {
                assert(out.deep_view() =~= out0.push(data@.tasks[i as int]));
            }
        }
        i = i + 1;
    }
    proof {
        assert(data@.tasks.take(n as int) =~= data@.tasks);
    }
    out
}

/// Whether one task passes the listing filters.
fn task_matches(t: &Task, priority_filter: &Option<u8>, tag_filter: &Vec<String>) -> (r: bool)
    ensures
        r == spec_matches_filter(t@, *priority_filter, tag_filter.deep_view()),
{
    match priority_filter {
        Some(p) => {
            if t.priority != *p {
                return false;
            }
        },
        None => {},
    }
    let n = tag_filter.len();
    let mut j: usize = 0;
    while j < n
        invariant
            n == tag_filter@.len(),
            j <= n,
            forall|k: int| 0 <= k < j ==> has_tag_ci(t@, #[trigger] tag_filter.deep_view()[k]),
        decreases n - j,
    {
        proof {
            assert(tag_filter.deep_view()[j as int] == tag_filter@[j as int]@);
        }
        if !task_has_tag(t, tag_filter[j].as_str()) {
            return false;
        }
        j = j + 1;
    }
    true
}

/// Whether the task carries a tag equal to `tag` ignoring case.
fn task_has_tag(t: &Task, tag: &str) -> (r: bool)
    ensures
        r == has_tag_ci(t@, tag@),
{
    let n = t.tags.len();
    let mut i: usize = 0;
    while i < n
        invariant
            n == t.tags@.len(),
            i <= n,
            forall|k: int| 0 <= k < i ==> lower_seq(t@.tags[k]) != lower_seq(tag@),
        decreases n - i,
    {
        proof {
            assert(t@.tags[i as int] == t.tags@[i as int]@);
        }
        if crate::model::str_eq_ci(t.tags[i].as_str(), tag) {
            return true;
        }
        i = i + 1;
    }
    false
}

/// Completing a task is idempotent: completing the task carrying `id`
/// twice leaves the collection exactly as it stood after the first
/// completion; in particular the task's status stays `Done` and its
/// completion time keeps the first call's timestamp, whatever time the
/// second call observes. Only the version counter moves again.
pub proof fn lemma_complete_idempotent(f: TodoFileView, id: u128, n1: Timestamp, n2: Timestamp)
    requires
        f.wf(),
        f.has_id(id),
    ensures
        spec_complete_task(spec_complete_task(f, id, n1), id, n2).tasks == spec_complete_task(
            f,
            id,
            n1,
        ).tasks,
{
    let i = f.idx_of(id);
    assert(0 <= i < f.tasks.len() && f.tasks[i].id == id);
    let f1 = spec_complete_task(f, id, n1);
    let t1 = spec_mark_done(f.tasks[i], n1);
    assert(f1.tasks == f.tasks.update(i, t1));
    assert(f1.tasks[i] == t1);
    assert(t1.id == id);
    assert(f1.has_id(id));
    assert(f1.idx_of(id) == i) by {
        let j = f1.idx_of(id);
        assert(0 <= j < f1.tasks.len() && f1.tasks[j].id == id);
        if j != i {
            assert(f1.tasks[j] == f.tasks[j]);
            assert(f.tasks[j].id != f.tasks[i].id || j == i);
        }
    }
    assert(t1.status == Status::Done);
    assert(spec_mark_done(t1, n2) == t1);
    assert(spec_complete_task(f1, id, n2).tasks =~= f1.tasks);
}

/// Sequential adds lose no task: adding `t1` and then `t2`, each over the
/// state the previous write left behind, yields a collection holding both,
/// in order. This models two invocations whose read-modify-write cycles do
/// not overlap; nothing is claimed of interleaved invocations, where the
/// second read may precede the first write.
pub proof fn lemma_sequential_adds(f: TodoFileView, t1: TaskView, t2: TaskView)
    ensures
        spec_add_task(spec_add_task(f, t1), t2).tasks == f.tasks.push(t1).push(t2),
        spec_add_task(spec_add_task(f, t1), t2).tasks.contains(t1),
        spec_add_task(spec_add_task(f, t1), t2).tasks.contains(t2),
{
    let out = spec_add_task(spec_add_task(f, t1), t2).tasks;
    assert(out == f.tasks.push(t1).push(t2));
    assert(out[f.tasks.len() as int] == t1);
    assert(out[f.tasks.len() as int + 1] == t2);
}

} // verus!
