//! The persisted document: the exact JSON text written for a `TodoFile`
//! and the parser that reads it back. The writer is total over valid
//! aggregates; the parser accepts any whitespace between tokens, checks
//! every field, and fails on anything else. `lemma_load_of_json` states
//! the round trip.

use vstd::prelude::*;

use crate::jtext::{
    is_ws, spec_dec_seq, spec_escape, spec_expect, spec_parse_dec, spec_parse_str_chars,
    spec_skip_ws, spec_str_lit,
};
use crate::jvalue::{spec_parse_ts, spec_parse_uuid, spec_ts_seq, spec_uuid_seq};
use crate::model::{
    tags_ci_unique, Meta, Status, Task, TaskId, TaskView, Timestamp, TodoError, TodoFile,
    TodoFileView,
};

verus! {

// --- Fixed tokens of the format ---
pub open spec fn key_meta() -> Seq<char> {
    seq!['"', 'm', 'e', 't', 'a', '"']
}

pub open spec fn key_version() -> Seq<char> {
    seq!['"', 'v', 'e', 'r', 's', 'i', 'o', 'n', '"']
}

pub open spec fn key_current_id() -> Seq<char> {
    seq!['"', 'c', 'u', 'r', 'r', 'e', 'n', 't', '_', 'i', 'd', '"']
}

pub open spec fn key_generated_at() -> Seq<char> {
    seq!['"', 'g', 'e', 'n', 'e', 'r', 'a', 't', 'e', 'd', '_', 'a', 't', '"']
}

pub open spec fn key_tasks() -> Seq<char> {
    seq!['"', 't', 'a', 's', 'k', 's', '"']
}

pub open spec fn key_id() -> Seq<char> {
    seq!['"', 'i', 'd', '"']
}

pub open spec fn key_title() -> Seq<char> {
    seq!['"', 't', 'i', 't', 'l', 'e', '"']
}

pub open spec fn key_desc() -> Seq<char> {
    seq!['"', 'd', 'e', 's', 'c', '"']
}

pub open spec fn key_status() -> Seq<char> {
    seq!['"', 's', 't', 'a', 't', 'u', 's', '"']
}

pub open spec fn key_priority() -> Seq<char> {
    seq!['"', 'p', 'r', 'i', 'o', 'r', 'i', 't', 'y', '"']
}

pub open spec fn key_tags() -> Seq<char> {
    seq!['"', 't', 'a', 'g', 's', '"']
}

pub open spec fn key_created_at() -> Seq<char> {
    seq!['"', 'c', 'r', 'e', 'a', 't', 'e', 'd', '_', 'a', 't', '"']
}

pub open spec fn key_updated_at() -> Seq<char> {
    seq!['"', 'u', 'p', 'd', 'a', 't', 'e', 'd', '_', 'a', 't', '"']
}

pub open spec fn key_completed_at() -> Seq<char> {
    seq!['"', 'c', 'o', 'm', 'p', 'l', 'e', 't', 'e', 'd', '_', 'a', 't', '"']
}

pub open spec fn lit_null() -> Seq<char> {
    seq!['n', 'u', 'l', 'l']
}

/// The quoted writing of a status.
pub open spec fn status_lit(st: Status) -> Seq<char> {
    match st {
        Status::Done => seq!['"', 'D', 'o', 'n', 'e', '"'],
        Status::Pending => seq!['"', 'P', 'e', 'n', 'd', 'i', 'n', 'g', '"'],
        Status::Canceled => seq!['"', 'C', 'a', 'n', 'c', 'e', 'l', 'e', 'd', '"'],
        Status::InProgress => seq!['"', 'I', 'n', 'P', 'r', 'o', 'g', 'r', 'e', 's', 's', '"'],
    }
}

// --- Indentation pieces: a newline and the given number of spaces ---
pub open spec fn nl0() -> Seq<char> {
    seq!['\n']
}

pub open spec fn nl2() -> Seq<char> {
    seq!['\n', ' ', ' ']
}

pub open spec fn nl4() -> Seq<char> {
    seq!['\n', ' ', ' ', ' ', ' ']
}

pub open spec fn nl6() -> Seq<char> {
    seq!['\n', ' ', ' ', ' ', ' ', ' ', ' ']
}

pub open spec fn nl8() -> Seq<char> {
    seq!['\n', ' ', ' ', ' ', ' ', ' ', ' ', ' ', ' ']
}

/// `": "` between a key and its value.
pub open spec fn colon_sp() -> Seq<char> {
    seq![':', ' ']
}

/// A quoted timestamp.
pub open spec fn ts_lit(ts: Timestamp) -> Seq<char> {
    seq!['"'] + spec_ts_seq(ts) + seq!['"']
}

/// A quoted timestamp or `null`.
pub open spec fn opt_ts_lit(o: Option<Timestamp>) -> Seq<char> {
    match o {
        Some(ts) => ts_lit(ts),
        None => lit_null(),
    }
}

/// A string literal or `null`.
pub open spec fn opt_str_lit(o: Option<Seq<char>>) -> Seq<char> {
    match o {
        Some(t) => spec_str_lit(t),
        None => lit_null(),
    }
}

/// The items of a tag array after the first, each on its own line.
pub open spec fn spec_ser_tags_rest(tags: Seq<Seq<char>>) -> Seq<char>
    decreases tags.len(),
{
    if tags.len() == 0 {
        Seq::empty()
    } else {
        seq![','] + nl8() + spec_str_lit(tags[0]) + spec_ser_tags_rest(tags.drop_first())
    }
}

/// A tag array: `[]` when empty, else one string per line.
pub open spec fn spec_ser_tags(tags: Seq<Seq<char>>) -> Seq<char> {
    if tags.len() == 0 {
        seq!['[', ']']
    } else {
        seq!['['] + nl8() + spec_str_lit(tags[0]) + spec_ser_tags_rest(tags.drop_first()) + nl6()
            + seq![']']
    }
}

/// The first half of a task object: identifier, title and description.
pub open spec fn spec_ser_task_head(t: TaskView) -> Seq<char> {
    seq!['{'] + nl6() + key_id() + colon_sp() + seq!['"'] + spec_uuid_seq(t.id as int) + seq!['"']
        + seq![','] + nl6() + key_title() + colon_sp() + spec_str_lit(t.title) + seq![','] + nl6()
        + key_desc() + colon_sp() + opt_str_lit(t.desc)
}

/// The middle of a task object: status, priority and tags.
pub open spec fn spec_ser_task_mid(t: TaskView) -> Seq<char> {
    seq![','] + nl6() + key_status() + colon_sp() + status_lit(t.status) + seq![','] + nl6()
        + key_priority() + colon_sp() + spec_dec_seq(t.priority as int) + seq![','] + nl6()
        + key_tags() + colon_sp() + spec_ser_tags(t.tags)
}

/// The end of a task object: the three timestamps and the brace.
pub open spec fn spec_ser_task_end(t: TaskView) -> Seq<char> {
    seq![','] + nl6() + key_created_at() + colon_sp() + ts_lit(t.created_at) + seq![','] + nl6()
        + key_updated_at() + colon_sp() + opt_ts_lit(t.updated_at) + seq![','] + nl6()
        + key_completed_at() + colon_sp() + opt_ts_lit(t.completed_at) + nl4() + seq!['}']
}

/// The second half of a task object: from the status field to the brace.
pub open spec fn spec_ser_task_tail(t: TaskView) -> Seq<char> {
    spec_ser_task_mid(t) + spec_ser_task_end(t)
}

/// One task object, fields in fixed order, two-space indentation.
pub open spec fn spec_ser_task(t: TaskView) -> Seq<char> {
    spec_ser_task_head(t) + spec_ser_task_tail(t)
}

/// The items of the task array after the first.
pub open spec fn spec_ser_tasks_rest(tasks: Seq<TaskView>) -> Seq<char>
    decreases tasks.len(),
{
    if tasks.len() == 0 {
        Seq::empty()
    } else {
        seq![','] + nl4() + spec_ser_task(tasks[0]) + spec_ser_tasks_rest(tasks.drop_first())
    }
}

/// The task array: `[]` when empty, else one object per element.
pub open spec fn spec_ser_tasks(tasks: Seq<TaskView>) -> Seq<char> {
    if tasks.len() == 0 {
        seq!['[', ']']
    } else {
        seq!['['] + nl4() + spec_ser_task(tasks[0]) + spec_ser_tasks_rest(tasks.drop_first())
            + nl2() + seq![']']
    }
}

/// The whole document: metadata block, then the task array. The text is
/// grouped as the fixed skeleton runs around the variable pieces.
#[verifier::opaque]
pub open spec fn spec_ser_file(f: TodoFileView) -> Seq<char> {
    (seq!['{'] + nl2() + key_meta() + colon_sp() + seq!['{'] + nl4() + key_version() + colon_sp())
        + (spec_dec_seq(f.version as int) + ((seq![','] + nl4() + key_current_id() + colon_sp())
        + (spec_dec_seq(f.current_id as int) + ((seq![','] + nl4() + key_generated_at()
        + colon_sp() + seq!['"']) + (spec_ts_seq(f.generated_at) + ((seq!['"'] + nl2()
        + seq!['}'] + seq![','] + nl2() + key_tasks() + colon_sp()) + (spec_ser_tasks(f.tasks) + (
        nl0() + seq!['}']))))))))
}

// --- The parser, at the specification level ---
/// Skip whitespace, then require the exact token.
pub open spec fn spec_tok(s: Seq<char>, i: int, t: Seq<char>) -> Option<int> {
    spec_expect(s, spec_skip_ws(s, i), t)
}

/// A key followed by its colon.
pub open spec fn spec_key(s: Seq<char>, i: int, key: Seq<char>) -> Option<int> {
    match spec_tok(s, i, key) {
        Some(j) => spec_tok(s, j, seq![':']),
        None => None,
    }
}

/// An unsigned number that fits the version counters.
pub open spec fn spec_parse_u64_tok(s: Seq<char>, i: int) -> Option<(int, int)> {
    match spec_parse_dec(s, spec_skip_ws(s, i)) {
        Some((v, j)) => if v <= u64::MAX {
            Some((v, j))
        } else {
            None
        },
        None => None,
    }
}

/// A quoted identifier.
pub open spec fn spec_parse_uuid_str(s: Seq<char>, i: int) -> Option<(int, int)> {
    let j = spec_skip_ws(s, i);
    if 0 <= j && j < s.len() && s[j] == '"' {
        match spec_parse_uuid(s, j + 1) {
            Some((v, k)) => if k < s.len() && s[k] == '"' {
                Some((v, k + 1))
            } else {
                None
            },
            None => None,
        }
    } else {
        None
    }
}

/// A quoted timestamp.
pub open spec fn spec_parse_ts_str(s: Seq<char>, i: int) -> Option<(Timestamp, int)> {
    let j = spec_skip_ws(s, i);
    if 0 <= j && j < s.len() && s[j] == '"' {
        match spec_parse_ts(s, j + 1) {
            Some((ts, k)) => if k < s.len() && s[k] == '"' {
                Some((ts, k + 1))
            } else {
                None
            },
            None => None,
        }
    } else {
        None
    }
}

/// A quoted timestamp or `null`.
pub open spec fn spec_parse_opt_ts(s: Seq<char>, i: int) -> Option<(Option<Timestamp>, int)> {
    match spec_tok(s, i, lit_null()) {
        Some(j) => Some((None, j)),
        None => match spec_parse_ts_str(s, i) {
            Some((ts, j)) => Some((Some(ts), j)),
            None => None,
        },
    }
}

/// A string literal.
pub open spec fn spec_parse_string_tok(s: Seq<char>, i: int) -> Option<(Seq<char>, int)> {
    let j = spec_skip_ws(s, i);
    if 0 <= j && j < s.len() && s[j] == '"' {
        spec_parse_str_chars(s, j + 1)
    } else {
        None
    }
}

/// A string literal or `null`.
pub open spec fn spec_parse_opt_str(s: Seq<char>, i: int) -> Option<(Option<Seq<char>>, int)> {
    match spec_tok(s, i, lit_null()) {
        Some(j) => Some((None, j)),
        None => match spec_parse_string_tok(s, i) {
            Some((t, j)) => Some((Some(t), j)),
            None => None,
        },
    }
}

/// One of the four status names, quoted.
pub open spec fn spec_parse_status(s: Seq<char>, i: int) -> Option<(Status, int)> {
    if spec_tok(s, i, status_lit(Status::Pending)) is Some {
        Some((Status::Pending, spec_tok(s, i, status_lit(Status::Pending))->0))
    } else if spec_tok(s, i, status_lit(Status::InProgress)) is Some {
        Some((Status::InProgress, spec_tok(s, i, status_lit(Status::InProgress))->0))
    } else if spec_tok(s, i, status_lit(Status::Done)) is Some {
        Some((Status::Done, spec_tok(s, i, status_lit(Status::Done))->0))
    } else if spec_tok(s, i, status_lit(Status::Canceled)) is Some {
        Some((Status::Canceled, spec_tok(s, i, status_lit(Status::Canceled))->0))
    } else {
        None
    }
}

/// The remaining items of a tag array: `, "tag"` repeated, then `]`.
pub open spec fn spec_parse_tags_rest(s: Seq<char>, i: int) -> Option<(Seq<Seq<char>>, int)>
    decreases s.len() - i,
{
    match spec_tok(s, i, seq![']']) {
        Some(j) => Some((Seq::empty(), j)),
        None => match spec_tok(s, i, seq![',']) {
            Some(j) => match spec_parse_string_tok(s, j) {
                Some((t, k)) => {
                    if i < k <= s.len() {
                        match spec_parse_tags_rest(s, k) {
                            Some((rest, m)) => Some((seq![t] + rest, m)),
                            None => None,
                        }
                    } else {
                        None
                    }
                },
                None => None,
            },
            None => None,
        },
    }
}

/// A tag array.
pub open spec fn spec_parse_tags(s: Seq<char>, i: int) -> Option<(Seq<Seq<char>>, int)> {
    match spec_tok(s, i, seq!['[']) {
        Some(j) => match spec_tok(s, j, seq![']']) {
            Some(k) => Some((Seq::empty(), k)),
            None => match spec_parse_string_tok(s, j) {
                Some((t, k)) => match spec_parse_tags_rest(s, k) {
                    Some((rest, m)) => Some((seq![t] + rest, m)),
                    None => None,
                },
                None => None,
            },
        },
        None => None,
    }
}

/// Whether parsed task parts form a valid task value.
pub open spec fn task_parts_ok(
    title: Seq<char>,
    status: Status,
    priority: int,
    tags: Seq<Seq<char>>,
    completed_at: Option<Timestamp>,
) -> bool {
    &&& title.len() > 0
    &&& 0 <= priority <= 5
    &&& tags_ci_unique(tags)
    &&& (status == Status::Done <==> completed_at is Some)
}

/// One task object: every field, in order, then validation.
#[verifier::opaque]
pub open spec fn spec_parse_task(s: Seq<char>, i: int) -> Option<(TaskView, int)> {
    match spec_tok(s, i, seq!['{']) {
        Some(i0) => match spec_key(s, i0, key_id()) {
            Some(i1) => match spec_parse_uuid_str(s, i1) {
                Some((id, i2)) => match spec_tok(s, i2, seq![',']) {
                    Some(i3) => match spec_key(s, i3, key_title()) {
                        Some(i4) => match spec_parse_string_tok(s, i4) {
                            Some((title, i5)) => match spec_tok(s, i5, seq![',']) {
                                Some(i6) => match spec_key(s, i6, key_desc()) {
                                    Some(i7) => match spec_parse_opt_str(s, i7) {
                                        Some((desc, i8)) => match spec_tok(s, i8, seq![',']) {
                                            Some(i9) => spec_parse_task_tail(
                                                s,
                                                i9,
                                                id,
                                                title,
                                                desc,
                                            ),
                                            None => None,
                                        },
                                        None => None,
                                    },
                                    None => None,
                                },
                                None => None,
                            },
                            None => None,
                        },
                        None => None,
                    },
                    None => None,
                },
                None => None,
            },
            None => None,
        },
        None => None,
    }
}

/// The second half of a task object, from the `status` key on.
pub open spec fn spec_parse_task_tail(
    s: Seq<char>,
    i: int,
    id: int,
    title: Seq<char>,
    desc: Option<Seq<char>>,
) -> Option<(TaskView, int)> {
    match spec_key(s, i, key_status()) {
        Some(i0) => match spec_parse_status(s, i0) {
            Some((status, i1)) => match spec_tok(s, i1, seq![',']) {
                Some(i2) => match spec_key(s, i2, key_priority()) {
                    Some(i3) => match spec_parse_u64_tok(s, i3) {
                        Some((priority, i4)) => match spec_tok(s, i4, seq![',']) {
                            Some(i5) => match spec_key(s, i5, key_tags()) {
                                Some(i6) => match spec_parse_tags(s, i6) {
                                    Some((tags, i7)) => match spec_tok(s, i7, seq![',']) {
                                        Some(i8) => spec_parse_task_end(
                                            s,
                                            i8,
                                            id,
                                            title,
                                            desc,
                                            status,
                                            priority,
                                            tags,
                                        ),
                                        None => None,
                                    },
                                    None => None,
                                },
                                None => None,
                            },
                            None => None,
                        },
                        None => None,
                    },
                    None => None,
                },
                None => None,
            },
            None => None,
        },
        None => None,
    }
}

/// The last third of a task object: the three timestamps, the closing
/// brace, and validation.
pub open spec fn spec_parse_task_end(
    s: Seq<char>,
    i: int,
    id: int,
    title: Seq<char>,
    desc: Option<Seq<char>>,
    status: Status,
    priority: int,
    tags: Seq<Seq<char>>,
) -> Option<(TaskView, int)> {
    match spec_key(s, i, key_created_at()) {
        Some(i9) => match spec_parse_ts_str(s, i9) {
            Some((created_at, i10)) => match spec_tok(s, i10, seq![',']) {
                Some(i11) => match spec_key(s, i11, key_updated_at()) {
                    Some(i12) => match spec_parse_opt_ts(s, i12) {
                        Some((updated_at, i13)) => match spec_tok(s, i13, seq![',']) {
                            Some(i14) => match spec_key(s, i14, key_completed_at()) {
                                Some(i15) => match spec_parse_opt_ts(s, i15) {
                                    Some((completed_at, i16)) => match spec_tok(
                                        s,
                                        i16,
                                        seq!['}'],
                                    ) {
                                        Some(i17) => {
                                            if task_parts_ok(
                                                title,
                                                status,
                                                priority,
                                                tags,
                                                completed_at,
                                            ) {
                                                Some(
                                                    (
                                                        TaskView {
                                                            id: id as u128,
                                                            title,
                                                            desc,
                                                            status,
                                                            priority: priority as u8,
                                                            tags,
                                                            created_at,
                                                            updated_at,
                                                            completed_at,
                                                        },
                                                        i17,
                                                    ),
                                                )
                                            } else {
                                                None
                                            }
                                        },
                                        None => None,
                                    },
                                    None => None,
                                },
                                None => None,
                            },
                            None => None,
                        },
                        None => None,
                    },
                    None => None,
                },
                None => None,
            },
            None => None,
        },
        None => None,
    }
}

/// The remaining items of the task array: `, {...}` repeated, then `]`.
pub open spec fn spec_parse_tasks_rest(s: Seq<char>, i: int) -> Option<(Seq<TaskView>, int)>
    decreases s.len() - i,
{
    match spec_tok(s, i, seq![']']) {
        Some(j) => Some((Seq::empty(), j)),
        None => match spec_tok(s, i, seq![',']) {
            Some(j) => match spec_parse_task(s, j) {
                Some((t, k)) => {
                    if i < k <= s.len() {
                        match spec_parse_tasks_rest(s, k) {
                            Some((rest, m)) => Some((seq![t] + rest, m)),
                            None => None,
                        }
                    } else {
                        None
                    }
                },
                None => None,
            },
            None => None,
        },
    }
}

/// The task array.
pub open spec fn spec_parse_tasks(s: Seq<char>, i: int) -> Option<(Seq<TaskView>, int)> {
    match spec_tok(s, i, seq!['[']) {
        Some(j) => match spec_tok(s, j, seq![']']) {
            Some(k) => Some((Seq::empty(), k)),
            None => match spec_parse_task(s, j) {
                Some((t, k)) => match spec_parse_tasks_rest(s, k) {
                    Some((rest, m)) => Some((seq![t] + rest, m)),
                    None => None,
                },
                None => None,
            },
        },
        None => None,
    }
}

/// Pairwise distinct task identifiers.
pub open spec fn ids_distinct(tasks: Seq<TaskView>) -> bool {
    forall|a: int, b: int| 0 <= a < b < tasks.len() ==> tasks[a].id != tasks[b].id
}

/// The whole document, consumed to the end, validated.
#[verifier::opaque]
pub open spec fn spec_parse_file(s: Seq<char>) -> Option<TodoFileView> {
    match spec_tok(s, 0, seq!['{']) {
        Some(i0) => match spec_key(s, i0, key_meta()) {
            Some(i1) => match spec_tok(s, i1, seq!['{']) {
                Some(i2) => match spec_key(s, i2, key_version()) {
                    Some(i3) => match spec_parse_u64_tok(s, i3) {
                        Some((version, i4)) => match spec_tok(s, i4, seq![',']) {
                            Some(i5) => match spec_key(s, i5, key_current_id()) {
                                Some(i6) => match spec_parse_u64_tok(s, i6) {
                                    Some((current_id, i7)) => match spec_tok(s, i7, seq![',']) {
                                        Some(i8) => match spec_key(s, i8, key_generated_at()) {
                                            Some(i9) => match spec_parse_ts_str(s, i9) {
                                                Some((generated_at, i10)) => match spec_tok(
                                                    s,
                                                    i10,
                                                    seq!['}'],
                                                ) {
                                                    Some(i11) => match spec_tok(
                                                        s,
                                                        i11,
                                                        seq![','],
                                                    ) {
                                                        Some(i12) => match spec_key(
                                                            s,
                                                            i12,
                                                            key_tasks(),
                                                        ) {
                                                            Some(i13) => match spec_parse_tasks(
                                                                s,
                                                                i13,
                                                            ) {
                                                                Some((tasks, i14)) => match
                                                                    spec_tok(s, i14, seq!['}']) {
                                                                    Some(i15) => {
                                                                        if spec_skip_ws(s, i15)
                                                                            == s.len()
                                                                            && ids_distinct(
                                                                            tasks,
                                                                        ) {
                                                                            Some(
                                                                                TodoFileView {
                                                                                    version: version as u64,
                                                                                    current_id: current_id as u64,
                                                                                    generated_at,
                                                                                    tasks,
                                                                                },
                                                                            )
                                                                        } else {
                                                                            None
                                                                        }
                                                                    },
                                                                    None => None,
                                                                },
                                                                None => None,
                                                            },
                                                            None => None,
                                                        },
                                                        None => None,
                                                    },
                                                    None => None,
                                                },
                                                None => None,
                                            },
                                            None => None,
                                        },
                                        None => None,
                                    },
                                    None => None,
                                },
                                None => None,
                            },
                            None => None,
                        },
                        None => None,
                    },
                    None => None,
                },
                None => None,
            },
            None => None,
        },
        None => None,
    }
}

// --- The writer, executable ---

/// Concatenation is associative.
proof fn lemma_assoc(a: Seq<char>, b: Seq<char>, c: Seq<char>)
    ensures
        a + (b + c) == (a + b) + c,
{
    assert(a + (b + c) =~= (a + b) + c);
}

/// The empty text is a unit for concatenation.
proof fn lemma_concat_empty(a: Seq<char>)
    ensures
        a + Seq::<char>::empty() == a,
        Seq::<char>::empty() + a == a,
{
    assert(a + Seq::<char>::empty() =~= a);
    assert(Seq::<char>::empty() + a =~= a);
}

/// Writing one more trailing tag extends the written rest by one item.
proof fn lemma_ser_tags_rest_snoc(tags: Seq<Seq<char>>, t: Seq<char>)
    ensures
        spec_ser_tags_rest(tags.push(t)) == spec_ser_tags_rest(tags) + (seq![','] + nl8()
            + spec_str_lit(t)),
    decreases tags.len(),
{
    reveal_with_fuel(spec_ser_tags_rest, 3);
    let unit = seq![','] + nl8() + spec_str_lit(t);
    if tags.len() == 0 {
        assert(tags.push(t)[0] == t);
        assert(tags.push(t).drop_first() =~= Seq::<Seq<char>>::empty());
        assert(spec_ser_tags_rest(tags.push(t)) == unit + spec_ser_tags_rest(
            Seq::<Seq<char>>::empty(),
        ));
        lemma_concat_empty(unit);
        lemma_concat_empty(unit);
        assert(spec_ser_tags_rest(tags) == Seq::<char>::empty());
        lemma_concat_empty(unit);
        assert(spec_ser_tags_rest(tags) + unit =~= unit);
        assert(spec_ser_tags_rest(tags.push(t)) =~= unit);
    } else {
        assert(tags.push(t)[0] == tags[0]);
        assert(tags.push(t).drop_first() =~= tags.drop_first().push(t));
        lemma_ser_tags_rest_snoc(tags.drop_first(), t);
        let head = seq![','] + nl8() + spec_str_lit(tags[0]);
        assert(spec_ser_tags_rest(tags.push(t)) == head + (spec_ser_tags_rest(tags.drop_first())
            + unit));
        lemma_assoc(head, spec_ser_tags_rest(tags.drop_first()), unit);
        assert(spec_ser_tags_rest(tags) == head + spec_ser_tags_rest(tags.drop_first()));
    }
}

/// Writing one more trailing task extends the written rest by one item.
#[verifier::rlimit(100)]
proof fn lemma_ser_tasks_rest_snoc(tasks: Seq<TaskView>, t: TaskView)
    ensures
        spec_ser_tasks_rest(tasks.push(t)) == spec_ser_tasks_rest(tasks) + (seq![','] + nl4()
            + spec_ser_task(t)),
    decreases tasks.len(),
{
    reveal_with_fuel(spec_ser_tasks_rest, 3);
    let unit = seq![','] + nl4() + spec_ser_task(t);
    if tasks.len() == 0 {
        assert(tasks.push(t)[0] == t);
        assert(tasks.push(t).drop_first() =~= Seq::<TaskView>::empty());
        assert(spec_ser_tasks_rest(tasks.push(t)) == unit + spec_ser_tasks_rest(
            Seq::<TaskView>::empty(),
        ));
        lemma_concat_empty(unit);
        assert(spec_ser_tasks_rest(tasks) == Seq::<char>::empty());
        assert(spec_ser_tasks_rest(tasks) + unit =~= unit);
        assert(spec_ser_tasks_rest(tasks.push(t)) == unit);
    } else {
        assert(tasks.push(t)[0] == tasks[0]);
        assert(tasks.push(t).drop_first() =~= tasks.drop_first().push(t));
        lemma_ser_tasks_rest_snoc(tasks.drop_first(), t);
        let head = seq![','] + nl4() + spec_ser_task(tasks[0]);
        assert(spec_ser_tasks_rest(tasks.push(t)) == head + (spec_ser_tasks_rest(
            tasks.drop_first(),
        ) + unit));
        lemma_assoc(head, spec_ser_tasks_rest(tasks.drop_first()), unit);
        assert(spec_ser_tasks_rest(tasks) == head + spec_ser_tasks_rest(tasks.drop_first()));
    }
}

/// Append the tag array of a task.
#[verifier::rlimit(100)]
fn write_tags(out: &mut Vec<char>, tags: &Vec<String>)
    ensures
        final(out)@ == old(out)@ + spec_ser_tags(tags.deep_view()),
{
    let ghost tv = tags.deep_view();
    if tags.len() == 0 {
        crate::jtext::write_lit(out, "[]");
        proof {
            reveal_strlit("[]");
            assert(("[]")@ =~= seq!['[', ']']);
            assert(out@ =~= old(out)@ + spec_ser_tags(tv));
        }
        return ;
    }
    crate::jtext::write_lit(out, "[\n        ");
    crate::jtext::write_string(out, tags[0].as_str());
    proof {
        reveal_strlit("[\n        ");
        assert(("[\n        ")@ =~= seq!['['] + nl8());
        assert(tv[0] == tags@[0]@);
        assert(out@ =~= old(out)@ + (seq!['['] + nl8() + spec_str_lit(tv[0])));
    }
    let ghost base = old(out)@ + (seq!['['] + nl8() + spec_str_lit(tv[0]));
    let n = tags.len();
    let mut k: usize = 1;
    proof {
        assert(tv.subrange(1, 1) =~= Seq::<Seq<char>>::empty());
        assert(out@ =~= base + spec_ser_tags_rest(tv.subrange(1, 1)));
    }
    while k < n
        invariant
            1 <= k <= n,
            n == tags@.len(),
            tv == tags.deep_view(),
            base == old(out)@ + (seq!['['] + nl8() + spec_str_lit(tv[0])),
            out@ == base + spec_ser_tags_rest(tv.subrange(1, k as int)),
        decreases n - k,
    {
        crate::jtext::write_lit(out, ",\n        ");
        crate::jtext::write_string(out, tags[k].as_str());
        proof {
            reveal_strlit(",\n        ");
            assert((",\n        ")@ =~= seq![','] + nl8());
            assert(tv[k as int] == tags@[k as int]@);
            lemma_ser_tags_rest_snoc(tv.subrange(1, k as int), tv[k as int]);
            assert(tv.subrange(1, k + 1) =~= tv.subrange(1, k as int).push(tv[k as int]));
            assert(out@ =~= base + spec_ser_tags_rest(tv.subrange(1, k + 1)));
        }
        k = k + 1;
    }
    crate::jtext::write_lit(out, "\n      ]");
    proof {
        reveal_strlit("\n      ]");
        assert(("\n      ]")@ =~= nl6() + seq![']']);
        assert(tv.subrange(1, n as int) =~= tv.drop_first());
        assert(out@ =~= old(out)@ + spec_ser_tags(tv));
    }
}

/// Append a quoted timestamp or `null`.
fn write_opt_ts(out: &mut Vec<char>, o: &Option<Timestamp>)
    requires
        o matches Some(ts) ==> ts.wf(),
    ensures
        final(out)@ == old(out)@ + opt_ts_lit(*o),
{
    match o {
        None => {
            crate::jtext::write_lit(out, "null");
            proof {
                reveal_strlit("null");
                assert(("null")@ =~= lit_null());
            }
        },
        Some(ts) => {
            out.push('"');
            crate::jvalue::write_ts(out, ts);
            out.push('"');
            proof {
                assert(out@ =~= old(out)@ + ts_lit(*ts));
            }
        },
    }
}

/// Append one task object.
fn write_task(out: &mut Vec<char>, t: &Task)
    requires
        t@.wf(),
    ensures
        final(out)@ == old(out)@ + spec_ser_task(t@),
{
    write_task_head(out, t);
    write_task_tail(out, t);
    proof {
        lemma_assoc(old(out)@, spec_ser_task_head(t@), spec_ser_task_tail(t@));
    }
}

/// Append the first half of a task object.
#[verifier::rlimit(100)]
fn write_task_head(out: &mut Vec<char>, t: &Task)
    requires
        t@.wf(),
    ensures
        final(out)@ == old(out)@ + spec_ser_task_head(t@),
{
    crate::jtext::write_lit(out, "{\n      \"id\": \"");
    crate::jvalue::write_uuid(out, t.id.value);
    crate::jtext::write_lit(out, "\",\n      \"title\": ");
    crate::jtext::write_string(out, t.title.as_str());
    crate::jtext::write_lit(out, ",\n      \"desc\": ");
    match &t.desc {
        None => {
            crate::jtext::write_lit(out, "null");
            proof {
                reveal_strlit("null");
                assert(("null")@ =~= lit_null());
            }
        },
        Some(d) => {
            crate::jtext::write_string(out, d.as_str());
        },
    }
    proof {
        reveal_strlit("{\n      \"id\": \"");
        reveal_strlit("\",\n      \"title\": ");
        reveal_strlit(",\n      \"desc\": ");
        assert(("{\n      \"id\": \"")@ =~= seq!['{'] + nl6() + key_id() + colon_sp()
            + seq!['"']);
        assert(("\",\n      \"title\": ")@ =~= seq!['"'] + seq![','] + nl6() + key_title()
            + colon_sp());
        assert((",\n      \"desc\": ")@ =~= seq![','] + nl6() + key_desc() + colon_sp());
        assert(t@.desc == t.desc.deep_view());
        assert(out@ =~= old(out)@ + spec_ser_task_head(t@));
    }
}

/// Append the second half of a task object.
fn write_task_tail(out: &mut Vec<char>, t: &Task)
    requires
        t@.wf(),
    ensures
        final(out)@ == old(out)@ + spec_ser_task_tail(t@),
{
    write_task_mid(out, t);
    write_task_end(out, t);
    proof {
        lemma_assoc(old(out)@, spec_ser_task_mid(t@), spec_ser_task_end(t@));
    }
}

/// Append the middle of a task object.
#[verifier::rlimit(100)]
fn write_task_mid(out: &mut Vec<char>, t: &Task)
    requires
        t@.wf(),
    ensures
        final(out)@ == old(out)@ + spec_ser_task_mid(t@),
{
    crate::jtext::write_lit(out, ",\n      \"status\": ");
    match t.status {
        Status::Done => {
            crate::jtext::write_lit(out, "\"Done\"");
            proof {
                reveal_strlit("\"Done\"");
                assert(("\"Done\"")@ =~= status_lit(Status::Done));
            }
        },
        Status::Pending => {
            crate::jtext::write_lit(out, "\"Pending\"");
            proof {
                reveal_strlit("\"Pending\"");
                assert(("\"Pending\"")@ =~= status_lit(Status::Pending));
            }
        },
        Status::Canceled => {
            crate::jtext::write_lit(out, "\"Canceled\"");
            proof {
                reveal_strlit("\"Canceled\"");
                assert(("\"Canceled\"")@ =~= status_lit(Status::Canceled));
            }
        },
        Status::InProgress => {
            crate::jtext::write_lit(out, "\"InProgress\"");
            proof {
                reveal_strlit("\"InProgress\"");
                assert(("\"InProgress\"")@ =~= status_lit(Status::InProgress));
            }
        },
    }
    crate::jtext::write_lit(out, ",\n      \"priority\": ");
    crate::jtext::write_dec(out, t.priority as u64);
    crate::jtext::write_lit(out, ",\n      \"tags\": ");
    write_tags(out, &t.tags);
    proof {
        reveal_strlit(",\n      \"status\": ");
        reveal_strlit(",\n      \"priority\": ");
        reveal_strlit(",\n      \"tags\": ");
        assert((",\n      \"status\": ")@ =~= seq![','] + nl6() + key_status() + colon_sp());
        assert((",\n      \"priority\": ")@ =~= seq![','] + nl6() + key_priority() + colon_sp());
        assert((",\n      \"tags\": ")@ =~= seq![','] + nl6() + key_tags() + colon_sp());
        assert(out@ =~= old(out)@ + spec_ser_task_mid(t@));
    }
}

/// Append the end of a task object.
#[verifier::rlimit(100)]
fn write_task_end(out: &mut Vec<char>, t: &Task)
    requires
        t@.wf(),
    ensures
        final(out)@ == old(out)@ + spec_ser_task_end(t@),
{
    crate::jtext::write_lit(out, ",\n      \"created_at\": \"");
    crate::jvalue::write_ts(out, &t.created_at);
    crate::jtext::write_lit(out, "\",\n      \"updated_at\": ");
    write_opt_ts(out, &t.updated_at);
    crate::jtext::write_lit(out, ",\n      \"completed_at\": ");
    write_opt_ts(out, &t.completed_at);
    crate::jtext::write_lit(out, "\n    }");
    proof {
        reveal_strlit(",\n      \"created_at\": \"");
        reveal_strlit("\",\n      \"updated_at\": ");
        reveal_strlit(",\n      \"completed_at\": ");
        reveal_strlit("\n    }");
        assert((",\n      \"created_at\": \"")@ =~= seq![','] + nl6() + key_created_at()
            + colon_sp() + seq!['"']);
        assert(("\",\n      \"updated_at\": ")@ =~= seq!['"'] + seq![','] + nl6()
            + key_updated_at() + colon_sp());
        assert((",\n      \"completed_at\": ")@ =~= seq![','] + nl6() + key_completed_at()
            + colon_sp());
        assert(("\n    }")@ =~= nl4() + seq!['}']);
        assert(out@ =~= old(out)@ + spec_ser_task_end(t@));
    }
}

/// Append the task array.
#[verifier::rlimit(100)]
fn write_tasks(out: &mut Vec<char>, tasks: &Vec<Task>)
    requires
        forall|k: int| 0 <= k < tasks.deep_view().len() ==> (#[trigger] tasks.deep_view()[k]).wf(),
    ensures
        final(out)@ == old(out)@ + spec_ser_tasks(tasks.deep_view()),
{
    let ghost tv = tasks.deep_view();
    if tasks.len() == 0 {
        crate::jtext::write_lit(out, "[]");
        proof {
            reveal_strlit("[]");
            assert(("[]")@ =~= seq!['[', ']']);
            assert(out@ =~= old(out)@ + spec_ser_tasks(tv));
        }
        return ;
    }
    crate::jtext::write_lit(out, "[\n    ");
    proof {
        assert(tv[0] == tasks@[0]@);
        assert(tv[0].wf());
    }
    write_task(out, &tasks[0]);
    proof {
        reveal_strlit("[\n    ");
        assert(("[\n    ")@ =~= seq!['['] + nl4());
        assert(out@ =~= old(out)@ + (seq!['['] + nl4() + spec_ser_task(tv[0])));
    }
    let ghost base = old(out)@ + (seq!['['] + nl4() + spec_ser_task(tv[0]));
    let n = tasks.len();
    let mut k: usize = 1;
    proof {
        assert(tv.subrange(1, 1) =~= Seq::<TaskView>::empty());
        assert(out@ =~= base + spec_ser_tasks_rest(tv.subrange(1, 1)));
    }
    while k < n
        invariant
            1 <= k <= n,
            n == tasks@.len(),
            tv == tasks.deep_view(),
            forall|m: int| 0 <= m < tv.len() ==> (#[trigger] tv[m]).wf(),
            base == old(out)@ + (seq!['['] + nl4() + spec_ser_task(tv[0])),
            out@ == base + spec_ser_tasks_rest(tv.subrange(1, k as int)),
        decreases n - k,
    {
        crate::jtext::write_lit(out, ",\n    ");
        proof {
            assert(tv[k as int] == tasks@[k as int]@);
            assert(tv[k as int].wf());
        }
        write_task(out, &tasks[k]);
        proof {
            reveal_strlit(",\n    ");
            assert((",\n    ")@ =~= seq![','] + nl4());
            lemma_ser_tasks_rest_snoc(tv.subrange(1, k as int), tv[k as int]);
            assert(tv.subrange(1, k + 1) =~= tv.subrange(1, k as int).push(tv[k as int]));
            assert(out@ =~= base + spec_ser_tasks_rest(tv.subrange(1, k + 1)));
        }
        k = k + 1;
    }
    crate::jtext::write_lit(out, "\n  ]");
    proof {
        reveal_strlit("\n  ]");
        assert(("\n  ]")@ =~= nl2() + seq![']']);
        assert(tv.subrange(1, n as int) =~= tv.drop_first());
        assert(out@ =~= old(out)@ + spec_ser_tasks(tv));
    }
}

/// The exact document text for a valid aggregate, pretty-printed.
#[verifier::rlimit(100)]
pub fn to_json(data: &TodoFile) -> (r: String)
    requires
        data@.wf(),
    ensures
        r@ == spec_ser_file(data@),
{
    let mut out: Vec<char> = Vec::new();
    crate::jtext::write_lit(&mut out, "{\n  \"meta\": {\n    \"version\": ");
    crate::jtext::write_dec(&mut out, data.meta.version);
    crate::jtext::write_lit(&mut out, ",\n    \"current_id\": ");
    crate::jtext::write_dec(&mut out, data.meta.current_id);
    crate::jtext::write_lit(&mut out, ",\n    \"generated_at\": \"");
    crate::jvalue::write_ts(&mut out, &data.meta.generated_at);
    crate::jtext::write_lit(&mut out, "\"\n  },\n  \"tasks\": ");
    write_tasks(&mut out, &data.tasks);
    crate::jtext::write_lit(&mut out, "\n}");
    proof {
        reveal(spec_ser_file);
        reveal_strlit("{\n  \"meta\": {\n    \"version\": ");
        reveal_strlit(",\n    \"current_id\": ");
        reveal_strlit(",\n    \"generated_at\": \"");
        reveal_strlit("\"\n  },\n  \"tasks\": ");
        reveal_strlit("\n}");
        assert(("{\n  \"meta\": {\n    \"version\": ")@ =~= seq!['{'] + nl2() + key_meta()
            + colon_sp() + seq!['{'] + nl4() + key_version() + colon_sp());
        assert((",\n    \"current_id\": ")@ =~= seq![','] + nl4() + key_current_id()
            + colon_sp());
        assert((",\n    \"generated_at\": \"")@ =~= seq![','] + nl4() + key_generated_at()
            + colon_sp() + seq!['"']);
        assert(("\"\n  },\n  \"tasks\": ")@ =~= seq!['"'] + nl2() + seq!['}'] + seq![','] + nl2()
            + key_tasks() + colon_sp());
        assert(("\n}")@ =~= nl0() + seq!['}']);
        assert(out@ =~= spec_ser_file(data@));
    }
    crate::jtext::chars_to_string(&out)
}

// --- The parser, executable ---
/// Skip whitespace, then match a fixed token.
fn x_tok(s: &Vec<char>, i: usize, lit: &str) -> (r: Option<usize>)
    requires
        i <= s@.len(),
    ensures
        r matches Some(j) ==> spec_tok(s@, i as int, lit@) == Some(j as int) && i <= j
            <= s@.len(),
        r is None ==> spec_tok(s@, i as int, lit@) is None,
{
    let j = crate::jtext::skip_ws(s, i);
    crate::jtext::expect_lit(s, j, lit)
}

/// Skip whitespace, then match a key and its colon.
fn x_key(s: &Vec<char>, i: usize, key: &str) -> (r: Option<usize>)
    requires
        i <= s@.len(),
    ensures
        r matches Some(j) ==> spec_key(s@, i as int, key@) == Some(j as int) && i <= j
            <= s@.len(),
        r is None ==> spec_key(s@, i as int, key@) is None,
{
    match x_tok(s, i, key) {
        None => None,
        Some(j) => {
            let r = x_tok(s, j, ":");
            proof {
                reveal_strlit(":");
                assert((":")@ =~= seq![':']);
            }
            r
        },
    }
}

/// A number for the version counters.
fn x_u64_tok(s: &Vec<char>, i: usize) -> (r: Option<(u64, usize)>)
    requires
        i <= s@.len(),
    ensures
        r matches Some((v, j)) ==> spec_parse_u64_tok(s@, i as int) == Some((v as int, j as int))
            && i <= j <= s@.len(),
        r is None ==> spec_parse_u64_tok(s@, i as int) is None,
{
    let j = crate::jtext::skip_ws(s, i);
    crate::jtext::parse_dec(s, j)
}

/// A quoted identifier.
fn x_uuid_str(s: &Vec<char>, i: usize) -> (r: Option<(u128, usize)>)
    requires
        i <= s@.len(),
    ensures
        r matches Some((v, j)) ==> spec_parse_uuid_str(s@, i as int) == Some((v as int, j as int))
            && i <= j <= s@.len(),
        r is None ==> spec_parse_uuid_str(s@, i as int) is None,
{
    let j = crate::jtext::skip_ws(s, i);
    if j >= s.len() || s[j] != '"' {
        return None;
    }
    match crate::jvalue::parse_uuid(s, j + 1) {
        None => None,
        Some((v, k)) => {
            if k < s.len() && s[k] == '"' {
                Some((v, k + 1))
            } else {
                None
            }
        },
    }
}

/// A quoted timestamp.
fn x_ts_str(s: &Vec<char>, i: usize) -> (r: Option<(Timestamp, usize)>)
    requires
        i <= s@.len(),
    ensures
        r matches Some((ts, j)) ==> spec_parse_ts_str(s@, i as int) == Some((ts, j as int)) && i
            <= j <= s@.len() && ts.wf(),
        r is None ==> spec_parse_ts_str(s@, i as int) is None,
{
    let j = crate::jtext::skip_ws(s, i);
    if j >= s.len() || s[j] != '"' {
        return None;
    }
    match crate::jvalue::parse_ts(s, j + 1) {
        None => None,
        Some((ts, k)) => {
            if k < s.len() && s[k] == '"' {
                Some((ts, k + 1))
            } else {
                None
            }
        },
    }
}

/// A quoted timestamp or `null`.
fn x_opt_ts(s: &Vec<char>, i: usize) -> (r: Option<(Option<Timestamp>, usize)>)
    requires
        i <= s@.len(),
    ensures
        r matches Some((o, j)) ==> spec_parse_opt_ts(s@, i as int) == Some((o, j as int)) && i
            <= j <= s@.len() && (o matches Some(ts) ==> ts.wf()),
        r is None ==> spec_parse_opt_ts(s@, i as int) is None,
{
    proof {
        reveal_strlit("null");
        assert(("null")@ =~= lit_null());
    }
    match x_tok(s, i, "null") {
        Some(j) => Some((None, j)),
        None => match x_ts_str(s, i) {
            Some((ts, j)) => Some((Some(ts), j)),
            None => None,
        },
    }
}

/// A string literal, as its characters.
fn x_string_tok(s: &Vec<char>, i: usize) -> (r: Option<(Vec<char>, usize)>)
    requires
        i <= s@.len(),
    ensures
        r matches Some((t, j)) ==> spec_parse_string_tok(s@, i as int) == Some((t@, j as int))
            && i <= j <= s@.len(),
        r is None ==> spec_parse_string_tok(s@, i as int) is None,
{
    let j = crate::jtext::skip_ws(s, i);
    if j >= s.len() || s[j] != '"' {
        return None;
    }
    crate::jtext::parse_str_chars(s, j + 1)
}

/// A string literal or `null`.
fn x_opt_str(s: &Vec<char>, i: usize) -> (r: Option<(Option<Vec<char>>, usize)>)
    requires
        i <= s@.len(),
    ensures
        r matches Some((o, j)) ==> spec_parse_opt_str(s@, i as int) == Some(
            (
                match o {
                    Some(t) => Some(t@),
                    None => None,
                },
                j as int,
            ),
        ) && i <= j <= s@.len(),
        r is None ==> spec_parse_opt_str(s@, i as int) is None,
{
    proof {
        reveal_strlit("null");
        assert(("null")@ =~= lit_null());
    }
    match x_tok(s, i, "null") {
        Some(j) => Some((None, j)),
        None => match x_string_tok(s, i) {
            Some((t, j)) => Some((Some(t), j)),
            None => None,
        },
    }
}

/// One of the four status names.
fn x_status(s: &Vec<char>, i: usize) -> (r: Option<(Status, usize)>)
    requires
        i <= s@.len(),
    ensures
        r matches Some((st, j)) ==> spec_parse_status(s@, i as int) == Some((st, j as int)) && i
            <= j <= s@.len(),
        r is None ==> spec_parse_status(s@, i as int) is None,
{
    proof {
        reveal_strlit("\"Pending\"");
        reveal_strlit("\"InProgress\"");
        reveal_strlit("\"Done\"");
        reveal_strlit("\"Canceled\"");
        assert(("\"Pending\"")@ =~= status_lit(Status::Pending));
        assert(("\"InProgress\"")@ =~= status_lit(Status::InProgress));
        assert(("\"Done\"")@ =~= status_lit(Status::Done));
        assert(("\"Canceled\"")@ =~= status_lit(Status::Canceled));
    }
    if let Some(j) = x_tok(s, i, "\"Pending\"") {
        Some((Status::Pending, j))
    } else if let Some(j) = x_tok(s, i, "\"InProgress\"") {
        Some((Status::InProgress, j))
    } else if let Some(j) = x_tok(s, i, "\"Done\"") {
        Some((Status::Done, j))
    } else if let Some(j) = x_tok(s, i, "\"Canceled\"") {
        Some((Status::Canceled, j))
    } else {
        None
    }
}

/// A tag array, as owned strings.
#[verifier::rlimit(100)]
fn x_tags(s: &Vec<char>, i: usize) -> (r: Option<(Vec<String>, usize)>)
    requires
        i <= s@.len(),
    ensures
        r matches Some((tags, j)) ==> spec_parse_tags(s@, i as int) == Some(
            (tags.deep_view(), j as int),
        ) && i <= j <= s@.len(),
        r is None ==> spec_parse_tags(s@, i as int) is None,
{
    proof {
        reveal_strlit("[");
        reveal_strlit("]");
        reveal_strlit(",");
        assert(("[")@ =~= seq!['[']);
        assert(("]")@ =~= seq![']']);
        assert((",")@ =~= seq![',']);
    }
    let j = match x_tok(s, i, "[") {
        None => {
            return None;
        },
        Some(j) => j,
    };
    if let Some(k) = x_tok(s, j, "]") {
        let out: Vec<String> = Vec::new();
        proof {
            assert(out.deep_view() =~= Seq::<Seq<char>>::empty());
        }
        return Some((out, k));
    }
    let (t0, k0) = match x_string_tok(s, j) {
        None => {
            return None;
        },
        Some(p) => p,
    };
    let mut out: Vec<String> = Vec::new();
    out.push(crate::jtext::chars_to_string(&t0));
    let mut cur: usize = k0;
    proof {
        assert(out.deep_view() =~= seq![t0@]);
        match spec_parse_tags_rest(s@, k0 as int) {
            Some((rest, m)) => {
                assert(spec_parse_tags(s@, i as int) == Some((seq![t0@] + rest, m)));
                assert(seq![t0@] + rest =~= out.deep_view() + rest);
            },
            None => {},
        }
    }
    loop
        invariant
            i <= cur <= s@.len(),
            s@.len() == s.len(),
            (match spec_parse_tags_rest(s@, cur as int) {
                Some((rest, m)) => spec_parse_tags(s@, i as int) == Some(
                    (out.deep_view() + rest, m),
                ),
                None => spec_parse_tags(s@, i as int) is None,
            }),
        decreases s@.len() - cur,
    {
        proof {
            reveal_strlit("]");
            reveal_strlit(",");
            assert(("]")@ =~= seq![']']);
            assert((",")@ =~= seq![',']);
        }
        let ghost out0 = out.deep_view();
        let ghost cur0 = cur as int;
        if let Some(m) = x_tok(s, cur, "]") {
            proof {
                assert(out0 + Seq::<Seq<char>>::empty() =~= out0);
            }
            return Some((out, m));
        }
        let j2 = match x_tok(s, cur, ",") {
            None => {
                return None;
            },
            Some(j2) => j2,
        };
        let (t2, k2) = match x_string_tok(s, j2) {
            None => {
                return None;
            },
            Some(p) => p,
        };
        proof {
            lemma_skip_ws_lower(s@, cur0, j2 as int);
            lemma_string_tok_advances(s@, j2 as int, k2 as int);
        }
        out.push(crate::jtext::chars_to_string(&t2));
        cur = k2;
        proof {
            assert(out.deep_view() =~= out0.push(t2@));
            match spec_parse_tags_rest(s@, cur as int) {
                Some((rest, m)) => {
                    assert(spec_parse_tags_rest(s@, cur0) == Some((seq![t2@] + rest, m)));
                    assert(out0 + (seq![t2@] + rest) =~= out0.push(t2@) + rest);
                },
                None => {},
            }
        }
    }
}

/// A successful token match lands at or after the start.
proof fn lemma_skip_ws_lower(s: Seq<char>, i: int, j: int)
    requires
        0 <= i <= s.len(),
        spec_tok(s, i, seq![',']) == Some(j),
    ensures
        i < j <= s.len(),
{
    crate::jtext::lemma_skip_ws_bounds(s, i);
}

/// A successful string token ends after it starts.
proof fn lemma_string_tok_advances(s: Seq<char>, i: int, k: int)
    requires
        0 <= i <= s.len(),
        (spec_parse_string_tok(s, i) matches Some((_, k2)) && k2 == k),
    ensures
        i < k <= s.len(),
{
    crate::jtext::lemma_skip_ws_bounds(s, i);
    let j = spec_skip_ws(s, i);
    crate::jtext::lemma_parse_str_chars_bounds(s, j + 1);
}

/// Whether the tag list is case-insensitively duplicate-free.
fn tags_unique_ci(tags: &Vec<String>) -> (r: bool)
    ensures
        r == tags_ci_unique(tags.deep_view()),
{
    let n = tags.len();
    let mut b: usize = 0;
    while b < n
        invariant
            n == tags@.len(),
            b <= n,
            forall|x: int, y: int|
                0 <= x < y < b ==> crate::model::lower_seq(#[trigger] tags.deep_view()[x])
                    != crate::model::lower_seq(#[trigger] tags.deep_view()[y]),
        decreases n - b,
    {
        let mut a: usize = 0;
        while a < b
            invariant
                n == tags@.len(),
                a <= b < n,
                forall|x: int, y: int|
                    0 <= x < y < b ==> crate::model::lower_seq(#[trigger] tags.deep_view()[x])
                        != crate::model::lower_seq(#[trigger] tags.deep_view()[y]),
                forall|x: int|
                    0 <= x < a ==> crate::model::lower_seq(#[trigger] tags.deep_view()[x])
                        != crate::model::lower_seq(tags.deep_view()[b as int]),
            decreases b - a,
        {
            proof {
                assert(tags.deep_view()[a as int] == tags@[a as int]@);
                assert(tags.deep_view()[b as int] == tags@[b as int]@);
            }
            if crate::model::str_eq_ci(tags[a].as_str(), tags[b].as_str()) {
                return false;
            }
            a = a + 1;
        }
        b = b + 1;
    }
    true
}

/// Whether all task identifiers are pairwise distinct.
fn ids_unique(tasks: &Vec<Task>) -> (r: bool)
    ensures
        r == ids_distinct(tasks.deep_view()),
{
    let n = tasks.len();
    let mut b: usize = 0;
    while b < n
        invariant
            n == tasks@.len(),
            b <= n,
            forall|x: int, y: int|
                0 <= x < y < b ==> (#[trigger] tasks.deep_view()[x]).id
                    != (#[trigger] tasks.deep_view()[y]).id,
        decreases n - b,
    {
        let mut a: usize = 0;
        while a < b
            invariant
                n == tasks@.len(),
                a <= b < n,
                forall|x: int, y: int|
                    0 <= x < y < b ==> (#[trigger] tasks.deep_view()[x]).id
                        != (#[trigger] tasks.deep_view()[y]).id,
                forall|x: int|
                    0 <= x < a ==> (#[trigger] tasks.deep_view()[x]).id
                        != tasks.deep_view()[b as int].id,
            decreases b - a,
        {
            proof {
                assert(tasks.deep_view()[a as int] == tasks@[a as int]@);
                assert(tasks.deep_view()[b as int] == tasks@[b as int]@);
            }
            if tasks[a].id.value == tasks[b].id.value {
                return false;
            }
            a = a + 1;
        }
        b = b + 1;
    }
    true
}

/// Executable counterpart of `spec_parse_task`.
#[verifier::rlimit(100)]
fn x_parse_task(s: &Vec<char>, i: usize) -> (r: Option<(Task, usize)>)
    requires
        i <= s@.len(),
    ensures
        r matches Some((t, j)) ==> spec_parse_task(s@, i as int) == Some((t@, j as int)) && i < j
            <= s@.len() && t@.wf(),
        r is None ==> spec_parse_task(s@, i as int) is None,
{
    proof {
        reveal(spec_parse_task);
        reveal_strlit("{");
        reveal_strlit(",");
        reveal_strlit("\"id\"");
        reveal_strlit("\"title\"");
        reveal_strlit("\"desc\"");
        assert(("{")@ =~= seq!['{']);
        assert((",")@ =~= seq![',']);
        assert(("\"id\"")@ =~= key_id());
        assert(("\"title\"")@ =~= key_title());
        assert(("\"desc\"")@ =~= key_desc());
    }
    let i0 = match x_tok(s, i, "{") {
        None => {
            return None;
        },
        Some(v) => v,
    };
    proof {
        crate::jtext::lemma_skip_ws_bounds(s@, i as int);
    }
    let i1 = match x_key(s, i0, "\"id\"") {
        None => {
            return None;
        },
        Some(v) => v,
    };
    let (id, i2) = match x_uuid_str(s, i1) {
        None => {
            return None;
        },
        Some(v) => v,
    };
    let i3 = match x_tok(s, i2, ",") {
        None => {
            return None;
        },
        Some(v) => v,
    };
    let i4 = match x_key(s, i3, "\"title\"") {
        None => {
            return None;
        },
        Some(v) => v,
    };
    let (title_chars, i5) = match x_string_tok(s, i4) {
        None => {
            return None;
        },
        Some(v) => v,
    };
    let i6 = match x_tok(s, i5, ",") {
        None => {
            return None;
        },
        Some(v) => v,
    };
    let i7 = match x_key(s, i6, "\"desc\"") {
        None => {
            return None;
        },
        Some(v) => v,
    };
    let (desc_chars, i8) = match x_opt_str(s, i7) {
        None => {
            return None;
        },
        Some(v) => v,
    };
    let i9 = match x_tok(s, i8, ",") {
        None => {
            return None;
        },
        Some(v) => v,
    };
    x_parse_task_tail(s, i9, id, title_chars, desc_chars, Ghost(i as int))
}

/// Executable counterpart of `spec_parse_task_tail`, finishing the task.
#[verifier::rlimit(100)]
fn x_parse_task_tail(
    s: &Vec<char>,
    i: usize,
    id: u128,
    title_chars: Vec<char>,
    desc_chars: Option<Vec<char>>,
    Ghost(start): Ghost<int>,
) -> (r: Option<(Task, usize)>)
    requires
        i <= s@.len(),
        0 <= start < i,
        ({
            let dv = match desc_chars {
                Some(t) => Some(t@),
                None => None,
            };
            spec_parse_task(s@, start) == spec_parse_task_tail(
                s@,
                i as int,
                id as int,
                title_chars@,
                dv,
            )
        }),
    ensures
        r matches Some((t, j)) ==> spec_parse_task(s@, start) == Some((t@, j as int)) && start < j
            <= s@.len() && t@.wf(),
        r is None ==> spec_parse_task(s@, start) is None,
{
    proof {
        reveal_strlit(",");
        reveal_strlit("}");
        reveal_strlit("\"status\"");
        reveal_strlit("\"priority\"");
        reveal_strlit("\"tags\"");
        reveal_strlit("\"created_at\"");
        reveal_strlit("\"updated_at\"");
        reveal_strlit("\"completed_at\"");
        assert((",")@ =~= seq![',']);
        assert(("}")@ =~= seq!['}']);
        assert(("\"status\"")@ =~= key_status());
        assert(("\"priority\"")@ =~= key_priority());
        assert(("\"tags\"")@ =~= key_tags());
        assert(("\"created_at\"")@ =~= key_created_at());
        assert(("\"updated_at\"")@ =~= key_updated_at());
        assert(("\"completed_at\"")@ =~= key_completed_at());
    }
    let i0 = match x_key(s, i, "\"status\"") {
        None => {
            return None;
        },
        Some(v) => v,
    };
    let (status, i1) = match x_status(s, i0) {
        None => {
            return None;
        },
        Some(v) => v,
    };
    let i2 = match x_tok(s, i1, ",") {
        None => {
            return None;
        },
        Some(v) => v,
    };
    let i3 = match x_key(s, i2, "\"priority\"") {
        None => {
            return None;
        },
        Some(v) => v,
    };
    let (priority, i4) = match x_u64_tok(s, i3) {
        None => {
            return None;
        },
        Some(v) => v,
    };
    let i5 = match x_tok(s, i4, ",") {
        None => {
            return None;
        },
        Some(v) => v,
    };
    let i6 = match x_key(s, i5, "\"tags\"") {
        None => {
            return None;
        },
        Some(v) => v,
    };
    let (tags, i7) = match x_tags(s, i6) {
        None => {
            return None;
        },
        Some(v) => v,
    };
    let i8 = match x_tok(s, i7, ",") {
        None => {
            return None;
        },
        Some(v) => v,
    };
    x_parse_task_end(s, i8, id, title_chars, desc_chars, status, priority, tags, Ghost(start))
}

/// Executable counterpart of `spec_parse_task_end`.
#[verifier::rlimit(100)]
fn x_parse_task_end(
    s: &Vec<char>,
    i: usize,
    id: u128,
    title_chars: Vec<char>,
    desc_chars: Option<Vec<char>>,
    status: Status,
    priority: u64,
    tags: Vec<String>,
    Ghost(start): Ghost<int>,
) -> (r: Option<(Task, usize)>)
    requires
        i <= s@.len(),
        0 <= start < i,
        ({
            let dv = match desc_chars {
                Some(t) => Some(t@),
                None => None,
            };
            spec_parse_task(s@, start) == spec_parse_task_end(
                s@,
                i as int,
                id as int,
                title_chars@,
                dv,
                status,
                priority as int,
                tags.deep_view(),
            )
        }),
    ensures
        r matches Some((t, j)) ==> spec_parse_task(s@, start) == Some((t@, j as int)) && start < j
            <= s@.len() && t@.wf(),
        r is None ==> spec_parse_task(s@, start) is None,
{
    proof {
        reveal_strlit(",");
        reveal_strlit("}");
        reveal_strlit("\"created_at\"");
        reveal_strlit("\"updated_at\"");
        reveal_strlit("\"completed_at\"");
        assert((",")@ =~= seq![',']);
        assert(("}")@ =~= seq!['}']);
        assert(("\"created_at\"")@ =~= key_created_at());
        assert(("\"updated_at\"")@ =~= key_updated_at());
        assert(("\"completed_at\"")@ =~= key_completed_at());
    }
    let i9 = match x_key(s, i, "\"created_at\"") {
        None => {
            return None;
        },
        Some(v) => v,
    };
    let (created_at, i10) = match x_ts_str(s, i9) {
        None => {
            return None;
        },
        Some(v) => v,
    };
    let i11 = match x_tok(s, i10, ",") {
        None => {
            return None;
        },
        Some(v) => v,
    };
    let i12 = match x_key(s, i11, "\"updated_at\"") {
        None => {
            return None;
        },
        Some(v) => v,
    };
    let (updated_at, i13) = match x_opt_ts(s, i12) {
        None => {
            return None;
        },
        Some(v) => v,
    };
    let i14 = match x_tok(s, i13, ",") {
        None => {
            return None;
        },
        Some(v) => v,
    };
    let i15 = match x_key(s, i14, "\"completed_at\"") {
        None => {
            return None;
        },
        Some(v) => v,
    };
    let (completed_at, i16) = match x_opt_ts(s, i15) {
        None => {
            return None;
        },
        Some(v) => v,
    };
    let i17 = match x_tok(s, i16, "}") {
        None => {
            return None;
        },
        Some(v) => v,
    };
    // Validation, mirroring `task_parts_ok`.
    let parts_ok = title_chars.len() > 0 && priority <= 5 && tags_unique_ci(&tags) && ((
    status == Status::Done) == completed_at.is_some());
    if !parts_ok {
        return None;
    }
    let task = Task {
        id: TaskId { value: id },
        title: crate::jtext::chars_to_string(&title_chars),
        desc: match &desc_chars {
            Some(v) => Some(crate::jtext::chars_to_string(v)),
            None => None,
        },
        status,
        priority: priority as u8,
        tags,
        created_at,
        updated_at,
        completed_at,
    };
    proof {
        let dv = match desc_chars {
            Some(t) => Some(t@),
            None => None::<Seq<char>>,
        };
        match spec_parse_task_end(
            s@,
            i as int,
            id as int,
            title_chars@,
            dv,
            status,
            priority as int,
            tags.deep_view(),
        ) {
            Some((tv, j)) => {
                assert(task@ =~= tv);
            },
            None => {
                assert(false);
            },
        }
    }
    Some((task, i17))
}

/// Executable counterpart of `spec_parse_tasks`.
#[verifier::rlimit(100)]
fn x_parse_tasks(s: &Vec<char>, i: usize) -> (r: Option<(Vec<Task>, usize)>)
    requires
        i <= s@.len(),
    ensures
        r matches Some((tasks, j)) ==> spec_parse_tasks(s@, i as int) == Some(
            (tasks.deep_view(), j as int),
        ) && i <= j <= s@.len() && (forall|k: int|
            0 <= k < tasks.deep_view().len() ==> (#[trigger] tasks.deep_view()[k]).wf()),
        r is None ==> spec_parse_tasks(s@, i as int) is None,
{
    proof {
        reveal_strlit("[");
        reveal_strlit("]");
        reveal_strlit(",");
        assert(("[")@ =~= seq!['[']);
        assert(("]")@ =~= seq![']']);
        assert((",")@ =~= seq![',']);
    }
    let j = match x_tok(s, i, "[") {
        None => {
            return None;
        },
        Some(j) => j,
    };
    if let Some(k) = x_tok(s, j, "]") {
        let out: Vec<Task> = Vec::new();
        proof {
            assert(out.deep_view() =~= Seq::<TaskView>::empty());
        }
        return Some((out, k));
    }
    let (t0, k0) = match x_parse_task(s, j) {
        None => {
            return None;
        },
        Some(p) => p,
    };
    let mut out: Vec<Task> = Vec::new();
    out.push(t0);
    let mut cur: usize = k0;
    proof {
        assert(out.deep_view() =~= seq![out@[0]@]);
        match spec_parse_tasks_rest(s@, k0 as int) {
            Some((rest, m)) => {
                assert(seq![out@[0]@] + rest =~= out.deep_view() + rest);
            },
            None => {},
        }
    }
    loop
        invariant
            i <= cur <= s@.len(),
            s@.len() == s.len(),
            forall|k: int| 0 <= k < out.deep_view().len() ==> (#[trigger] out.deep_view()[k]).wf(),
            (match spec_parse_tasks_rest(s@, cur as int) {
                Some((rest, m)) => spec_parse_tasks(s@, i as int) == Some(
                    (out.deep_view() + rest, m),
                ),
                None => spec_parse_tasks(s@, i as int) is None,
            }),
        decreases s@.len() - cur,
    {
        proof {
            reveal_strlit("]");
            reveal_strlit(",");
            assert(("]")@ =~= seq![']']);
            assert((",")@ =~= seq![',']);
        }
        let ghost out0 = out.deep_view();
        let ghost cur0 = cur as int;
        if let Some(m) = x_tok(s, cur, "]") {
            proof {
                assert(out0 + Seq::<TaskView>::empty() =~= out0);
            }
            return Some((out, m));
        }
        let j2 = match x_tok(s, cur, ",") {
            None => {
                return None;
            },
            Some(j2) => j2,
        };
        let (t2, k2) = match x_parse_task(s, j2) {
            None => {
                return None;
            },
            Some(p) => p,
        };
        proof {
            lemma_skip_ws_lower(s@, cur0, j2 as int);
        }
        out.push(t2);
        cur = k2;
        proof {
            assert(out.deep_view() =~= out0.push(out@[out@.len() - 1]@));
            match spec_parse_tasks_rest(s@, cur as int) {
                Some((rest, m)) => {
                    assert(spec_parse_tasks_rest(s@, cur0) == Some(
                        (seq![out@[out@.len() - 1]@] + rest, m),
                    ));
                    assert(out0 + (seq![out@[out@.len() - 1]@] + rest) =~= out.deep_view() + rest);
                },
                None => {},
            }
        }
    }
}

/// Parse the whole document: the metadata block, then the task array,
/// nothing after. Anything else is a deserialization failure; nothing is
/// repaired or defaulted.
#[verifier::rlimit(100)]
pub fn load_from(text: &str) -> (r: Result<TodoFile, TodoError>)
    ensures
        r matches Ok(f) ==> spec_parse_file(text@) == Some(f@) && f@.wf(),
        r matches Err(e) ==> spec_parse_file(text@) is None && e == TodoError::Deserialization,
{
    let s = crate::jtext::str_to_chars(text);
    proof {
        reveal(spec_parse_file);
        reveal_strlit("{");
        reveal_strlit("}");
        reveal_strlit(",");
        reveal_strlit("\"meta\"");
        reveal_strlit("\"version\"");
        reveal_strlit("\"current_id\"");
        reveal_strlit("\"generated_at\"");
        reveal_strlit("\"tasks\"");
        assert(("{")@ =~= seq!['{']);
        assert(("}")@ =~= seq!['}']);
        assert((",")@ =~= seq![',']);
        assert(("\"meta\"")@ =~= key_meta());
        assert(("\"version\"")@ =~= key_version());
        assert(("\"current_id\"")@ =~= key_current_id());
        assert(("\"generated_at\"")@ =~= key_generated_at());
        assert(("\"tasks\"")@ =~= key_tasks());
    }
    let i0 = match x_tok(&s, 0, "{") {
        None => {
            return Err(TodoError::Deserialization);
        },
        Some(v) => v,
    };
    let i1 = match x_key(&s, i0, "\"meta\"") {
        None => {
            return Err(TodoError::Deserialization);
        },
        Some(v) => v,
    };
    let i2 = match x_tok(&s, i1, "{") {
        None => {
            return Err(TodoError::Deserialization);
        },
        Some(v) => v,
    };
    let i3 = match x_key(&s, i2, "\"version\"") {
        None => {
            return Err(TodoError::Deserialization);
        },
        Some(v) => v,
    };
    let (version, i4) = match x_u64_tok(&s, i3) {
        None => {
            return Err(TodoError::Deserialization);
        },
        Some(v) => v,
    };
    let i5 = match x_tok(&s, i4, ",") {
        None => {
            return Err(TodoError::Deserialization);
        },
        Some(v) => v,
    };
    let i6 = match x_key(&s, i5, "\"current_id\"") {
        None => {
            return Err(TodoError::Deserialization);
        },
        Some(v) => v,
    };
    let (current_id, i7) = match x_u64_tok(&s, i6) {
        None => {
            return Err(TodoError::Deserialization);
        },
        Some(v) => v,
    };
    let i8 = match x_tok(&s, i7, ",") {
        None => {
            return Err(TodoError::Deserialization);
        },
        Some(v) => v,
    };
    let i9 = match x_key(&s, i8, "\"generated_at\"") {
        None => {
            return Err(TodoError::Deserialization);
        },
        Some(v) => v,
    };
    let (generated_at, i10) = match x_ts_str(&s, i9) {
        None => {
            return Err(TodoError::Deserialization);
        },
        Some(v) => v,
    };
    let i11 = match x_tok(&s, i10, "}") {
        None => {
            return Err(TodoError::Deserialization);
        },
        Some(v) => v,
    };
    let i12 = match x_tok(&s, i11, ",") {
        None => {
            return Err(TodoError::Deserialization);
        },
        Some(v) => v,
    };
    let i13 = match x_key(&s, i12, "\"tasks\"") {
        None => {
            return Err(TodoError::Deserialization);
        },
        Some(v) => v,
    };
    let (tasks, i14) = match x_parse_tasks(&s, i13) {
        None => {
            return Err(TodoError::Deserialization);
        },
        Some(v) => v,
    };
    let i15 = match x_tok(&s, i14, "}") {
        None => {
            return Err(TodoError::Deserialization);
        },
        Some(v) => v,
    };
    let fin = crate::jtext::skip_ws(&s, i15);
    if fin != s.len() {
        return Err(TodoError::Deserialization);
    }
    if !ids_unique(&tasks) {
        return Err(TodoError::Deserialization);
    }
    let data = TodoFile { meta: Meta { version, current_id, generated_at }, tasks };
    proof {
        reveal(spec_parse_file);
        match spec_parse_file(text@) {
            Some(fv) => {
                assert(data@ =~= fv);
            },
            None => {
                assert(false);
            },
        }
    }
    Ok(data)
}

// --- Parsing inverts writing: positioned lemmas for each piece ---
/// All characters of the indentation pieces are whitespace.
proof fn lemma_nl_ws()
    ensures
        forall|k: int| 0 <= k < nl0().len() ==> is_ws(#[trigger] nl0()[k]),
        forall|k: int| 0 <= k < nl2().len() ==> is_ws(#[trigger] nl2()[k]),
        forall|k: int| 0 <= k < nl4().len() ==> is_ws(#[trigger] nl4()[k]),
        forall|k: int| 0 <= k < nl6().len() ==> is_ws(#[trigger] nl6()[k]),
        forall|k: int| 0 <= k < nl8().len() ==> is_ws(#[trigger] nl8()[k]),
{
}

/// A token parses where it stands: whitespace on `[i, j)`, the token text
/// at `j`, and a token that does not begin with whitespace.
proof fn lemma_tok_at(s: Seq<char>, i: int, j: int, t: Seq<char>)
    requires
        0 <= i <= j,
        j + t.len() <= s.len(),
        forall|k: int| i <= k < j ==> is_ws(s[k]),
        t.len() > 0,
        !is_ws(t[0]),
        s.subrange(j, j + t.len()) == t,
    ensures
        spec_tok(s, i, t) == Some(j + t.len()),
{
    assert(s[j] == t[0]) by {
        assert(s.subrange(j, j + t.len())[0] == s[j]);
    }
    crate::jtext::lemma_skip_ws_exact(s, i, j);
}

/// A key and its `": "` parse where they stand: whitespace, the quoted
/// key, a colon, then one space before the value.
proof fn lemma_key_at(s: Seq<char>, i: int, j: int, key: Seq<char>)
    requires
        0 <= i <= j,
        j + key.len() + 2 <= s.len(),
        forall|k: int| i <= k < j ==> is_ws(s[k]),
        key.len() > 0,
        key[0] == '"',
        s.subrange(j, j + key.len()) == key,
        s[j + key.len()] == ':',
        s[j + key.len() + 1] == ' ',
    ensures
        spec_key(s, i, key) == Some(j + key.len() + 1),
{
    lemma_tok_at(s, i, j, key);
    let m = j + key.len();
    assert(s.subrange(m, m + 1) =~= seq![':']);
    lemma_tok_at(s, m, m, seq![':']);
}

/// A number parses where it stands, after whitespace, provided no digit
/// follows it.
proof fn lemma_u64_tok_at(s: Seq<char>, i: int, j: int, v: int)
    requires
        0 <= v <= u64::MAX,
        0 <= i <= j,
        j + spec_dec_seq(v).len() <= s.len(),
        forall|k: int| i <= k < j ==> is_ws(s[k]),
        s.subrange(j, j + spec_dec_seq(v).len()) == spec_dec_seq(v),
        j + spec_dec_seq(v).len() < s.len() ==> !crate::jtext::is_digit(
            s[j + spec_dec_seq(v).len()],
        ),
    ensures
        spec_parse_u64_tok(s, i) == Some((v, j + spec_dec_seq(v).len())),
{
    crate::jtext::lemma_dec_seq_digits(v);
    assert(s[j] == spec_dec_seq(v)[0]) by {
        assert(s.subrange(j, j + spec_dec_seq(v).len())[0] == s[j]);
    }
    assert(!is_ws(s[j]));
    crate::jtext::lemma_skip_ws_exact(s, i, j);
    crate::jtext::lemma_parse_dec_of_dec_seq(s, j, v);
}

/// A quoted identifier parses where it stands, after whitespace.
proof fn lemma_uuid_str_at(s: Seq<char>, i: int, j: int, v: int)
    requires
        0 <= v < crate::jvalue::pow16(32),
        0 <= i <= j,
        j + 38 <= s.len(),
        forall|k: int| i <= k < j ==> is_ws(s[k]),
        s[j] == '"',
        s.subrange(j + 1, j + 37) == spec_uuid_seq(v),
        s[j + 37] == '"',
    ensures
        spec_parse_uuid_str(s, i) == Some((v, j + 38)),
{
    crate::jtext::lemma_skip_ws_exact(s, i, j);
    crate::jvalue::lemma_uuid_seq_len(v);
    crate::jvalue::lemma_parse_uuid_of_uuid_seq(s, j + 1, v);
}

/// A quoted timestamp parses where it stands, after whitespace.
proof fn lemma_ts_str_at(s: Seq<char>, i: int, j: int, ts: Timestamp)
    requires
        ts.wf(),
        0 <= i <= j,
        j + 22 <= s.len(),
        forall|k: int| i <= k < j ==> is_ws(s[k]),
        s[j] == '"',
        s.subrange(j + 1, j + 21) == spec_ts_seq(ts),
        s[j + 21] == '"',
    ensures
        spec_parse_ts_str(s, i) == Some((ts, j + 22)),
{
    crate::jtext::lemma_skip_ws_exact(s, i, j);
    crate::jvalue::lemma_parse_ts_of_ts_seq(s, j + 1, ts);
}

/// `null` or a quoted timestamp parses where the writing stands.
proof fn lemma_opt_ts_at(s: Seq<char>, i: int, j: int, o: Option<Timestamp>)
    requires
        o matches Some(ts) ==> ts.wf(),
        0 <= i <= j,
        j + opt_ts_lit(o).len() <= s.len(),
        forall|k: int| i <= k < j ==> is_ws(s[k]),
        s.subrange(j, j + opt_ts_lit(o).len()) == opt_ts_lit(o),
    ensures
        spec_parse_opt_ts(s, i) == Some((o, j + opt_ts_lit(o).len())),
{
    match o {
        None => {
            lemma_tok_at(s, i, j, lit_null());
        },
        Some(ts) => {
            assert(s[j] == '"') by {
                assert(s.subrange(j, j + opt_ts_lit(o).len())[0] == s[j]);
                assert(opt_ts_lit(o)[0] == '"');
            }
            // The `null` branch fails: after the whitespace stands a quote.
            crate::jtext::lemma_skip_ws_exact(s, i, j);
            assert(spec_tok(s, i, lit_null()) is None) by {
                if j + 4 <= s.len() && s.subrange(j, j + 4) == lit_null() {
                    assert(s.subrange(j, j + 4)[0] == s[j]);
                    assert(lit_null()[0] == 'n');
                }
            }
            assert(s.subrange(j + 1, j + 21) =~= spec_ts_seq(ts)) by {
                assert(forall|k: int|
                    0 <= k < 20 ==> s.subrange(j, j + 22)[1 + k] == #[trigger] s.subrange(
                        j + 1,
                        j + 21,
                    )[k]);
                assert(forall|k: int|
                    0 <= k < 20 ==> (seq!['"'] + spec_ts_seq(ts) + seq!['"'])[1 + k]
                        == #[trigger] spec_ts_seq(ts)[k]);
            }
            assert(s[j + 21] == '"') by {
                assert(s.subrange(j, j + 22)[21] == s[j + 21]);
                assert((seq!['"'] + spec_ts_seq(ts) + seq!['"'])[21] == '"');
            }
            lemma_ts_str_at(s, i, j, ts);
        },
    }
}

/// `null` or a string literal parses where the writing stands.
proof fn lemma_opt_str_at(s: Seq<char>, i: int, j: int, o: Option<Seq<char>>)
    requires
        0 <= i <= j,
        j + opt_str_lit(o).len() <= s.len(),
        forall|k: int| i <= k < j ==> is_ws(s[k]),
        s.subrange(j, j + opt_str_lit(o).len()) == opt_str_lit(o),
    ensures
        spec_parse_opt_str(s, i) == Some((o, j + opt_str_lit(o).len())),
{
    match o {
        None => {
            lemma_tok_at(s, i, j, lit_null());
        },
        Some(t) => {
            let e = spec_escape(t);
            let w = j + opt_str_lit(o).len();
            assert(s[j] == '"') by {
                assert(s.subrange(j, w)[0] == s[j]);
                assert(spec_str_lit(t)[0] == '"');
            }
            crate::jtext::lemma_skip_ws_exact(s, i, j);
            assert(spec_tok(s, i, lit_null()) is None) by {
                if j + 4 <= s.len() && s.subrange(j, j + 4) == lit_null() {
                    assert(s.subrange(j, j + 4)[0] == s[j]);
                    assert(lit_null()[0] == 'n');
                }
            }
            assert(s.subrange(j + 1, j + 1 + e.len()) =~= e) by {
                assert(forall|k: int|
                    0 <= k < e.len() ==> s.subrange(j, w)[1 + k] == #[trigger] s.subrange(
                        j + 1,
                        j + 1 + e.len(),
                    )[k]);
                assert(forall|k: int|
                    0 <= k < e.len() ==> (seq!['"'] + e + seq!['"'])[1 + k] == #[trigger] e[k]);
            }
            assert(s[j + 1 + e.len() as int] == '"') by {
                assert(s.subrange(j, w)[1 + e.len() as int] == s[j + 1 + e.len() as int]);
                assert((seq!['"'] + e + seq!['"'])[1 + e.len() as int] == '"');
            }
            crate::jtext::lemma_parse_str_of_escape(s, j + 1, j + 1 + e.len(), t);
        },
    }
}

/// A string literal alone parses where it stands, after whitespace.
proof fn lemma_string_tok_at(s: Seq<char>, i: int, j: int, t: Seq<char>)
    requires
        0 <= i <= j,
        j + spec_str_lit(t).len() <= s.len(),
        forall|k: int| i <= k < j ==> is_ws(s[k]),
        s.subrange(j, j + spec_str_lit(t).len()) == spec_str_lit(t),
    ensures
        spec_parse_string_tok(s, i) == Some((t, j + spec_str_lit(t).len())),
{
    let e = spec_escape(t);
    let w = j + spec_str_lit(t).len();
    assert(s[j] == '"') by {
        assert(s.subrange(j, w)[0] == s[j]);
        assert(spec_str_lit(t)[0] == '"');
    }
    crate::jtext::lemma_skip_ws_exact(s, i, j);
    assert(s.subrange(j + 1, j + 1 + e.len()) =~= e) by {
        assert(forall|k: int|
            0 <= k < e.len() ==> s.subrange(j, w)[1 + k] == #[trigger] s.subrange(
                j + 1,
                j + 1 + e.len(),
            )[k]);
        assert(forall|k: int|
            0 <= k < e.len() ==> (seq!['"'] + e + seq!['"'])[1 + k] == #[trigger] e[k]);
    }
    assert(s[j + 1 + e.len() as int] == '"') by {
        assert(s.subrange(j, w)[1 + e.len() as int] == s[j + 1 + e.len() as int]);
        assert((seq!['"'] + e + seq!['"'])[1 + e.len() as int] == '"');
    }
    crate::jtext::lemma_parse_str_of_escape(s, j + 1, j + 1 + e.len(), t);
}

/// A status name parses where it stands, after whitespace.
proof fn lemma_status_at(s: Seq<char>, i: int, j: int, st: Status)
    requires
        0 <= i <= j,
        j + status_lit(st).len() <= s.len(),
        forall|k: int| i <= k < j ==> is_ws(s[k]),
        s.subrange(j, j + status_lit(st).len()) == status_lit(st),
    ensures
        spec_parse_status(s, i) == Some((st, j + status_lit(st).len())),
{
    crate::jtext::lemma_skip_ws_exact(s, i, j);
    assert(s[j] == '"') by {
        assert(s.subrange(j, j + status_lit(st).len())[0] == s[j]);
    }
    assert(s[j + 1] == status_lit(st)[1]) by {
        assert(s.subrange(j, j + status_lit(st).len())[1] == s[j + 1]);
    }
    lemma_tok_at(s, i, j, status_lit(st));
    // The names differ in their first letter, so the earlier branches of
    // the parser fail for a later status.
    assert forall|other: Status|
        other != st implies spec_tok(s, i, other_lit_check(other)) is None by {
        let t = other_lit_check(other);
        if j + t.len() <= s.len() && s.subrange(j, j + t.len()) == t {
            assert(s.subrange(j, j + t.len())[1] == s[j + 1]);
            assert(t[1] != status_lit(st)[1]);
        }
    }
    assert(spec_parse_status(s, i) == Some((st, j + status_lit(st).len())));
}

/// The quoted writing of a status, under a name the trigger above can
/// bind.
pub open spec fn other_lit_check(st: Status) -> Seq<char> {
    status_lit(st)
}

/// The written tag items parse back, up to the closing bracket.
proof fn lemma_tags_rest_at(s: Seq<char>, i: int, m: int, tags: Seq<Seq<char>>)
    requires
        0 <= i <= m,
        m + 8 <= s.len(),
        m - i == spec_ser_tags_rest(tags).len(),
        s.subrange(i, m) == spec_ser_tags_rest(tags),
        s.subrange(m, m + 7) == nl6(),
        s[m + 7] == ']',
    ensures
        spec_parse_tags_rest(s, i) == Some((tags, m + 8)),
    decreases tags.len(),
{
    lemma_nl_ws();
    if tags.len() == 0 {
        assert(i == m);
        assert(forall|k: int| i <= k < m + 7 ==> is_ws(#[trigger] s[k])) by {
            assert(forall|k: int| 0 <= k < 7 ==> #[trigger] s.subrange(m, m + 7)[k] == s[m + k]);
        }
        assert(s.subrange(m + 7, m + 8) =~= seq![']']);
        lemma_tok_at(s, i, m + 7, seq![']']);
    } else {
        let first = spec_str_lit(tags[0]);
        let restw = spec_ser_tags_rest(tags.drop_first());
        assert(spec_ser_tags_rest(tags) == seq![','] + nl8() + first + restw);
        let w = s.subrange(i, m);
        assert(forall|k: int| 0 <= k < m - i ==> s[i + k] == #[trigger] w[k]) by {
            assert(forall|k: int| 0 <= k < m - i ==> #[trigger] s.subrange(i, m)[k] == s[i + k]);
        }
        // The region: ',' at i, nl8 on [i+1, i+10), the first string at
        // i+10, then the written rest.
        let p = i + 10 + first.len();
        assert(s[i] == ',') by {
            assert(w[0] == (seq![','] + nl8() + first + restw)[0]);
        }
        assert forall|k: int| i + 1 <= k < i + 10 implies is_ws(s[k]) by {
            let d = k - i;
            assert(s.subrange(i, m)[d] == s[i + d]);
            assert((seq![','] + nl8() + first + restw)[d] == nl8()[d - 1]);
        }
        assert(s.subrange(i + 10, p) =~= first) by {
            assert(forall|k: int|
                0 <= k < first.len() ==> (seq![','] + nl8() + first + restw)[10 + k]
                    == #[trigger] first[k]);
            assert(forall|k: int|
                0 <= k < first.len() ==> #[trigger] s.subrange(i + 10, p)[k] == s[i + 10 + k]);
        }
        assert(s.subrange(p, m) =~= restw) by {
            assert(forall|k: int|
                0 <= k < restw.len() ==> (seq![','] + nl8() + first + restw)[10 + first.len() as int + k]
                    == #[trigger] restw[k]);
            assert(forall|k: int| 0 <= k < restw.len() ==> #[trigger] s.subrange(p, m)[k] == s[p + k]);
        }
        // `]` fails at the comma, `,` matches, the string parses, and the
        // rest follows by induction.
        assert(spec_skip_ws(s, i) == i) by {
            crate::jtext::lemma_skip_ws_exact(s, i, i);
        }
        assert(spec_tok(s, i, seq![']']) is None) by {
            if i + 1 <= s.len() && s.subrange(i, i + 1) == seq![']'] {
                assert(s.subrange(i, i + 1)[0] == s[i]);
            }
        }
        assert(s.subrange(i, i + 1) =~= seq![',']);
        lemma_tok_at(s, i, i, seq![',']);
        lemma_string_tok_at(s, i + 1, i + 10, tags[0]);
        lemma_tags_rest_at(s, p, m, tags.drop_first());
        assert(seq![tags[0]] + tags.drop_first() =~= tags);
    }
}

/// A written tag array parses back, after leading whitespace.
proof fn lemma_tags_at(s: Seq<char>, i0: int, i: int, tags: Seq<Seq<char>>)
    requires
        0 <= i0 <= i,
        i + spec_ser_tags(tags).len() <= s.len(),
        forall|k: int| i0 <= k < i ==> is_ws(s[k]),
        s.subrange(i, i + spec_ser_tags(tags).len()) == spec_ser_tags(tags),
    ensures
        spec_parse_tags(s, i0) == Some((tags, i + spec_ser_tags(tags).len())),
{
    lemma_nl_ws();
    let w = spec_ser_tags(tags);
    assert(forall|k: int| 0 <= k < w.len() ==> s[i + k] == #[trigger] w[k]) by {
        assert(forall|k: int| 0 <= k < w.len() ==> #[trigger] s.subrange(i, i + w.len())[k] == s[i + k]);
    }
    assert(s[i] == '[') by {
        assert(w[0] == '[');
    }
    assert(s.subrange(i, i + 1) =~= seq!['[']);
    lemma_tok_at(s, i0, i, seq!['[']);
    if tags.len() == 0 {
        assert(s[i + 1] == ']') by {
            assert(w[1] == ']');
        }
        assert(s.subrange(i + 1, i + 2) =~= seq![']']);
        lemma_tok_at(s, i + 1, i + 1, seq![']']);
    } else {
        let first = spec_str_lit(tags[0]);
        let restw = spec_ser_tags_rest(tags.drop_first());
        assert(w == seq!['['] + nl8() + first + restw + nl6() + seq![']']);
        let p = i + 10 + first.len();
        let m = p + restw.len();
        assert forall|k: int| i + 1 <= k < i + 10 implies is_ws(s[k]) by {
            let d = k - i;
            assert(s.subrange(i, i + w.len())[d] == s[i + d]);
            assert(w[d] == nl8()[d - 1]);
        }
        assert(s[i + 10] == first[0]) by {
            assert(w[10] == first[0]);
            assert(first[0] == '"');
        }
        assert(spec_tok(s, i + 1, seq![']']) is None) by {
            crate::jtext::lemma_skip_ws_exact(s, i + 1, i + 10);
            assert(first[0] == '"');
            if i + 11 <= s.len() && s.subrange(i + 10, i + 11) == seq![']'] {
                assert(s.subrange(i + 10, i + 11)[0] == s[i + 10]);
            }
        }
        assert(s.subrange(i + 10, p) =~= first) by {
            assert(forall|k: int| 0 <= k < first.len() ==> w[10 + k] == #[trigger] first[k]);
            assert(forall|k: int|
                0 <= k < first.len() ==> #[trigger] s.subrange(i + 10, p)[k] == s[i + 10 + k]);
        }
        lemma_string_tok_at(s, i + 1, i + 10, tags[0]);
        assert(s.subrange(p, m) =~= restw) by {
            assert(forall|k: int|
                0 <= k < restw.len() ==> w[10 + first.len() as int + k] == #[trigger] restw[k]);
            assert(forall|k: int| 0 <= k < restw.len() ==> #[trigger] s.subrange(p, m)[k] == s[p + k]);
        }
        assert(s.subrange(m, m + 7) =~= nl6()) by {
            assert(forall|k: int|
                0 <= k < 7 ==> w[10 + first.len() as int + restw.len() as int + k] == #[trigger] nl6()[k]);
            assert(forall|k: int| 0 <= k < 7 ==> #[trigger] s.subrange(m, m + 7)[k] == s[m + k]);
        }
        assert(s[m + 7] == ']') by {
            assert(w[10 + first.len() as int + restw.len() as int + 7] == ']');
        }
        lemma_tags_rest_at(s, p, m, tags.drop_first());
        assert(seq![tags[0]] + tags.drop_first() =~= tags);
        assert(m + 8 == i + w.len());
    }
}

/// A written task head parses back: from the opening brace through the
/// description, leaving the parser just before the comma that follows.
#[verifier::rlimit(100)]
proof fn lemma_task_head_at(s: Seq<char>, i: int, t: TaskView)
    requires
        t.wf(),
        0 <= i,
        i + spec_ser_task_head(t).len() <= s.len(),
        s.subrange(i, i + spec_ser_task_head(t).len()) == spec_ser_task_head(t),
    ensures
        spec_parse_task(s, i) == (match spec_tok(
            s,
            i + spec_ser_task_head(t).len(),
            seq![','],
        ) {
            Some(i9) => spec_parse_task_tail(s, i9, t.id as int, t.title, t.desc),
            None => None,
        }),
{
    reveal(spec_parse_task);
    lemma_nl_ws();
    let hd = spec_ser_task_head(t);
    let run1 = seq!['{'] + nl6() + key_id() + colon_sp() + seq!['"'];
    let uu = spec_uuid_seq(t.id as int);
    let run2 = seq!['"'] + seq![','] + nl6() + key_title() + colon_sp();
    let tl = spec_str_lit(t.title);
    let run3 = seq![','] + nl6() + key_desc() + colon_sp();
    let dl = opt_str_lit(t.desc);
    crate::jvalue::lemma_uuid_seq_len(t.id as int);
    let lt = tl.len() as int;
    let ld = dl.len() as int;
    assert(hd =~= run1 + uu + run2 + tl + run3 + dl);
    assert(hd.len() == 85 + lt + ld);
    // Transfer the text to absolute positions.
    assert(forall|k: int| 0 <= k < hd.len() ==> s[i + k] == #[trigger] hd[k]) by {
        assert(forall|k: int|
            0 <= k < hd.len() ==> #[trigger] s.subrange(i, i + hd.len())[k] == s[i + k]);
    }
    // run1: `{`, indentation, the id key, its colon, the opening quote.
    assert(s[i] == '{' && s[i + 12] == ':' && s[i + 13] == ' ' && s[i + 14] == '"') by {
        assert(hd[0] == '{' && hd[12] == ':' && hd[13] == ' ' && hd[14] == '"');
    }
    assert forall|k: int| i + 1 <= k < i + 8 implies is_ws(s[k]) by {
        assert(hd[k - i] == nl6()[k - i - 1]);
    }
    assert(s.subrange(i + 8, i + 12) =~= key_id()) by {
        assert(forall|k: int| 0 <= k < 4 ==> hd[8 + k] == #[trigger] key_id()[k]);
        assert(forall|k: int| 0 <= k < 4 ==> #[trigger] s.subrange(i + 8, i + 12)[k] == s[i + 8 + k]);
    }
    // The identifier.
    assert(s.subrange(i + 15, i + 51) =~= uu) by {
        assert(forall|k: int| 0 <= k < 36 ==> hd[15 + k] == #[trigger] uu[k]);
        assert(forall|k: int|
            0 <= k < 36 ==> #[trigger] s.subrange(i + 15, i + 51)[k] == s[i + 15 + k]);
    }
    // run2: closing quote, comma, indentation, the title key, its colon.
    assert(s[i + 51] == '"' && s[i + 52] == ',' && s[i + 67] == ':' && s[i + 68] == ' ') by {
        assert(hd[51] == '"' && hd[52] == ',' && hd[67] == ':' && hd[68] == ' ');
    }
    assert forall|k: int| i + 53 <= k < i + 60 implies is_ws(s[k]) by {
        assert(hd[k - i] == nl6()[k - i - 53]);
    }
    assert(s.subrange(i + 60, i + 67) =~= key_title()) by {
        assert(forall|k: int| 0 <= k < 7 ==> hd[60 + k] == #[trigger] key_title()[k]);
        assert(forall|k: int|
            0 <= k < 7 ==> #[trigger] s.subrange(i + 60, i + 67)[k] == s[i + 60 + k]);
    }
    // The title text.
    assert(s.subrange(i + 69, i + 69 + lt) =~= tl) by {
        assert(forall|k: int| 0 <= k < lt ==> hd[69 + k] == #[trigger] tl[k]);
        assert(forall|k: int|
            0 <= k < lt ==> #[trigger] s.subrange(i + 69, i + 69 + lt)[k] == s[i + 69 + k]);
    }
    // run3: comma, indentation, the desc key, its colon.
    assert(s[i + 69 + lt] == ',' && s[i + 83 + lt] == ':' && s[i + 84 + lt] == ' ') by {
        assert(hd[69 + lt] == ',' && hd[83 + lt] == ':' && hd[84 + lt] == ' ');
    }
    assert forall|k: int| i + 70 + lt <= k < i + 77 + lt implies is_ws(s[k]) by {
        assert(hd[k - i] == nl6()[k - i - 70 - lt]);
    }
    assert(s.subrange(i + 77 + lt, i + 83 + lt) =~= key_desc()) by {
        assert(forall|k: int| 0 <= k < 6 ==> hd[77 + lt + k] == #[trigger] key_desc()[k]);
        assert(forall|k: int|
            0 <= k < 6 ==> #[trigger] s.subrange(i + 77 + lt, i + 83 + lt)[k] == s[i + 77 + lt
                + k]);
    }
    // The description.
    assert(s.subrange(i + 85 + lt, i + 85 + lt + ld) =~= dl) by {
        assert(forall|k: int| 0 <= k < ld ==> hd[85 + lt + k] == #[trigger] dl[k]);
        assert(forall|k: int|
            0 <= k < ld ==> #[trigger] s.subrange(i + 85 + lt, i + 85 + lt + ld)[k] == s[i + 85
                + lt + k]);
    }
    // Now walk the parser.
    assert(s.subrange(i, i + 1) =~= seq!['{']);
    lemma_tok_at(s, i, i, seq!['{']);
    lemma_key_at(s, i + 1, i + 8, key_id());
    assert(forall|k: int| i + 13 <= k < i + 14 ==> is_ws(#[trigger] s[k]));
    crate::jvalue::lemma_pow16_values();
    lemma_uuid_str_at(s, i + 13, i + 14, t.id as int);
    assert(s.subrange(i + 52, i + 53) =~= seq![',']);
    lemma_tok_at(s, i + 52, i + 52, seq![',']);
    lemma_key_at(s, i + 53, i + 60, key_title());
    assert(forall|k: int| i + 68 <= k < i + 69 ==> is_ws(#[trigger] s[k]));
    lemma_string_tok_at(s, i + 68, i + 69, t.title);
    assert(s.subrange(i + 69 + lt, i + 70 + lt) =~= seq![',']);
    lemma_tok_at(s, i + 69 + lt, i + 69 + lt, seq![',']);
    lemma_key_at(s, i + 70 + lt, i + 77 + lt, key_desc());
    assert(forall|k: int| i + 84 + lt <= k < i + 85 + lt ==> is_ws(#[trigger] s[k]));
    lemma_opt_str_at(s, i + 84 + lt, i + 85 + lt, t.desc);
}

/// A comma, indentation, a key and its colon parse where they stand; the
/// run ends with the single space before the value.
proof fn lemma_comma_key_run(s: Seq<char>, i: int, key: Seq<char>)
    requires
        0 <= i,
        i + 10 + key.len() <= s.len(),
        key.len() > 0,
        key[0] == '"',
        s.subrange(i, i + 10 + key.len()) == seq![','] + nl6() + key + colon_sp(),
    ensures
        spec_tok(s, i, seq![',']) == Some(i + 1),
        spec_key(s, i + 1, key) == Some(i + 9 + key.len()),
        is_ws(s[i + 9 + key.len()]),
    decreases 0int,
{
    lemma_nl_ws();
    let kl = key.len() as int;
    let run = seq![','] + nl6() + key + colon_sp();
    assert(forall|k: int| 0 <= k < 10 + kl ==> s[i + k] == #[trigger] run[k]) by {
        assert(forall|k: int|
            0 <= k < 10 + kl ==> #[trigger] s.subrange(i, i + 10 + kl)[k] == s[i + k]);
    }
    assert(s[i] == ',' && s[i + 8 + kl] == ':' && s[i + 9 + kl] == ' ') by {
        assert(run[0] == ',' && run[8 + kl] == ':' && run[9 + kl] == ' ');
    }
    assert forall|k: int| i + 1 <= k < i + 8 implies is_ws(s[k]) by {
        assert(run[k - i] == nl6()[k - i - 1]);
    }
    assert(s.subrange(i + 8, i + 8 + kl) =~= key) by {
        assert(forall|k: int| 0 <= k < kl ==> run[8 + k] == #[trigger] key[k]);
        assert(forall|k: int|
            0 <= k < kl ==> #[trigger] s.subrange(i + 8, i + 8 + kl)[k] == s[i + 8 + k]);
    }
    assert(s.subrange(i, i + 1) =~= seq![',']);
    lemma_tok_at(s, i, i, seq![',']);
    lemma_key_at(s, i + 1, i + 8, key);
}

/// A written task middle parses back: the comma after the description,
/// then status, priority and tags, leaving the parser just before the
/// next comma.
#[verifier::rlimit(100)]
proof fn lemma_task_mid_at(
    s: Seq<char>,
    i: int,
    t: TaskView,
    id: int,
    title: Seq<char>,
    desc: Option<Seq<char>>,
)
    requires
        t.wf(),
        0 <= i,
        i + spec_ser_task_mid(t).len() <= s.len(),
        s.subrange(i, i + spec_ser_task_mid(t).len()) == spec_ser_task_mid(t),
    ensures
        (match spec_tok(s, i, seq![',']) {
            Some(p) => spec_parse_task_tail(s, p, id, title, desc),
            None => None,
        }) == (match spec_tok(s, i + spec_ser_task_mid(t).len(), seq![',']) {
            Some(q) => spec_parse_task_end(
                s,
                q,
                id,
                title,
                desc,
                t.status,
                t.priority as int,
                t.tags,
            ),
            None => None,
        }),
{
    let md = spec_ser_task_mid(t);
    let runa = seq![','] + nl6() + key_status() + colon_sp();
    let sl = status_lit(t.status);
    let ls = sl.len() as int;
    let runb = seq![','] + nl6() + key_priority() + colon_sp();
    let dc = spec_dec_seq(t.priority as int);
    let lp = dc.len() as int;
    let runc = seq![','] + nl6() + key_tags() + colon_sp();
    let tg = spec_ser_tags(t.tags);
    let ltg = tg.len() as int;
    assert(md =~= runa + (sl + (runb + (dc + (runc + tg)))));
    assert(md.len() == 54 + ls + lp + ltg);
    let m = i + md.len();
    crate::jvalue::lemma_subrange_split(s, i, m, runa, sl + (runb + (dc + (runc + tg))));
    crate::jvalue::lemma_subrange_split(s, i + 18, m, sl, runb + (dc + (runc + tg)));
    crate::jvalue::lemma_subrange_split(s, i + 18 + ls, m, runb, dc + (runc + tg));
    crate::jvalue::lemma_subrange_split(s, i + 38 + ls, m, dc, runc + tg);
    crate::jvalue::lemma_subrange_split(s, i + 38 + ls + lp, m, runc, tg);
    lemma_comma_key_run(s, i, key_status());
    assert(forall|k: int| i + 17 <= k < i + 18 ==> is_ws(#[trigger] s[k]));
    lemma_status_at(s, i + 17, i + 18, t.status);
    lemma_comma_key_run(s, i + 18 + ls, key_priority());
    assert(forall|k: int| i + 37 + ls <= k < i + 38 + ls ==> is_ws(#[trigger] s[k]));
    assert(s[i + 38 + ls + lp] == ',') by {
        assert(s.subrange(i + 38 + ls + lp, i + 54 + ls + lp)[0] == s[i + 38 + ls + lp]);
        assert(runc[0] == ',');
    }
    lemma_u64_tok_at(s, i + 37 + ls, i + 38 + ls, t.priority as int);
    lemma_comma_key_run(s, i + 38 + ls + lp, key_tags());
    assert(forall|k: int| i + 53 + ls + lp <= k < i + 54 + ls + lp ==> is_ws(#[trigger] s[k]));
    lemma_tags_at(s, i + 53 + ls + lp, i + 54 + ls + lp, t.tags);
}

/// A written task end parses back: the comma after the tags, the three
/// timestamps, and the closing brace; validation passes for a valid task.
#[verifier::rlimit(100)]
proof fn lemma_task_end_at(
    s: Seq<char>,
    i: int,
    t: TaskView,
    id: int,
    title: Seq<char>,
    desc: Option<Seq<char>>,
)
    requires
        t.wf(),
        task_parts_ok(title, t.status, t.priority as int, t.tags, t.completed_at),
        0 <= i,
        i + spec_ser_task_end(t).len() <= s.len(),
        s.subrange(i, i + spec_ser_task_end(t).len()) == spec_ser_task_end(t),
    ensures
        (match spec_tok(s, i, seq![',']) {
            Some(p) => spec_parse_task_end(
                s,
                p,
                id,
                title,
                desc,
                t.status,
                t.priority as int,
                t.tags,
            ),
            None => None,
        }) == Some(
            (
                TaskView {
                    id: id as u128,
                    title,
                    desc,
                    status: t.status,
                    priority: t.priority,
                    tags: t.tags,
                    created_at: t.created_at,
                    updated_at: t.updated_at,
                    completed_at: t.completed_at,
                },
                i + spec_ser_task_end(t).len(),
            ),
        ),
{
    lemma_nl_ws();
    let ed = spec_ser_task_end(t);
    let rund = seq![','] + nl6() + key_created_at() + colon_sp();
    let ct = seq!['"'] + spec_ts_seq(t.created_at) + seq!['"'];
    let rune = seq![','] + nl6() + key_updated_at() + colon_sp();
    let ul = opt_ts_lit(t.updated_at);
    let lu = ul.len() as int;
    let runf = seq![','] + nl6() + key_completed_at() + colon_sp();
    let cl = opt_ts_lit(t.completed_at);
    let lc = cl.len() as int;
    let tailg = nl4() + seq!['}'];
    assert(ed =~= rund + (ct + (rune + (ul + (runf + (cl + tailg))))));
    assert(ed.len() == 96 + lu + lc);
    let m = i + ed.len();
    crate::jvalue::lemma_subrange_split(s, i, m, rund, ct + (rune + (ul + (runf + (cl + tailg)))));
    crate::jvalue::lemma_subrange_split(s, i + 22, m, ct, rune + (ul + (runf + (cl + tailg))));
    crate::jvalue::lemma_subrange_split(s, i + 44, m, rune, ul + (runf + (cl + tailg)));
    crate::jvalue::lemma_subrange_split(s, i + 66, m, ul, runf + (cl + tailg));
    crate::jvalue::lemma_subrange_split(s, i + 66 + lu, m, runf, cl + tailg);
    crate::jvalue::lemma_subrange_split(s, i + 90 + lu, m, cl, tailg);
    lemma_comma_key_run(s, i, key_created_at());
    assert(forall|k: int| i + 21 <= k < i + 22 ==> is_ws(#[trigger] s[k]));
    assert forall|k: int|
        0 <= k < 20 implies s.subrange(i + 23, i + 43)[k] == spec_ts_seq(t.created_at)[k] by {
        assert(s.subrange(i + 23, i + 43)[k] == s[i + 23 + k]);
        assert(s.subrange(i + 22, i + 44)[k + 1] == s[i + 23 + k]);
        assert(ct[k + 1] == spec_ts_seq(t.created_at)[k]);
    }
    assert(s.subrange(i + 23, i + 43) =~= spec_ts_seq(t.created_at));
    assert(s[i + 22] == '"') by {
        assert(s.subrange(i + 22, i + 44)[0] == s[i + 22]);
        assert(ct[0] == '"');
    }
    assert(s[i + 43] == '"') by {
        assert(s.subrange(i + 22, i + 44)[21] == s[i + 43]);
        assert(ct[21] == '"');
    }
    lemma_ts_str_at(s, i + 21, i + 22, t.created_at);
    lemma_comma_key_run(s, i + 44, key_updated_at());
    assert(forall|k: int| i + 65 <= k < i + 66 ==> is_ws(#[trigger] s[k]));
    lemma_opt_ts_at(s, i + 65, i + 66, t.updated_at);
    lemma_comma_key_run(s, i + 66 + lu, key_completed_at());
    assert(forall|k: int| i + 89 + lu <= k < i + 90 + lu ==> is_ws(#[trigger] s[k]));
    lemma_opt_ts_at(s, i + 89 + lu, i + 90 + lu, t.completed_at);
    assert forall|k: int| i + 90 + lu + lc <= k < i + 95 + lu + lc implies is_ws(s[k]) by {
        assert(s.subrange(i + 90 + lu + lc, m)[k - i - 90 - lu - lc] == s[k]);
        assert(tailg[k - i - 90 - lu - lc] == nl4()[k - i - 90 - lu - lc]);
    }
    assert(s[i + 95 + lu + lc] == '}') by {
        assert(s.subrange(i + 90 + lu + lc, m)[5] == s[i + 95 + lu + lc]);
        assert(tailg[5] == '}');
    }
    assert(s.subrange(i + 95 + lu + lc, i + 96 + lu + lc) =~= seq!['}']);
    lemma_tok_at(s, i + 90 + lu + lc, i + 95 + lu + lc, seq!['}']);
}

/// Skipping whitespace composes: skipping from before a whitespace run
/// lands where skipping from inside it does.
proof fn lemma_skip_ws_compose(s: Seq<char>, i0: int, i: int)
    requires
        0 <= i0 <= i <= s.len(),
        forall|k: int| i0 <= k < i ==> is_ws(s[k]),
    ensures
        spec_skip_ws(s, i0) == spec_skip_ws(s, i),
    decreases i - i0,
{
    if i0 < i {
        lemma_skip_ws_compose(s, i0 + 1, i);
    }
}

/// Leading whitespace does not change what a task parses to.
proof fn lemma_parse_task_ws(s: Seq<char>, i0: int, i: int)
    requires
        0 <= i0 <= i <= s.len(),
        forall|k: int| i0 <= k < i ==> is_ws(s[k]),
    ensures
        spec_parse_task(s, i0) == spec_parse_task(s, i),
{
    reveal(spec_parse_task);
    lemma_skip_ws_compose(s, i0, i);
}

/// A written task parses back to the task.
#[verifier::rlimit(100)]
proof fn lemma_task_at(s: Seq<char>, i0: int, i: int, t: TaskView)
    requires
        t.wf(),
        0 <= i0 <= i,
        i + spec_ser_task(t).len() <= s.len(),
        forall|k: int| i0 <= k < i ==> is_ws(s[k]),
        s.subrange(i, i + spec_ser_task(t).len()) == spec_ser_task(t),
    ensures
        spec_parse_task(s, i0) == Some((t, i + spec_ser_task(t).len())),
{
    let hd = spec_ser_task_head(t);
    let md = spec_ser_task_mid(t);
    let ed = spec_ser_task_end(t);
    let hend = i + hd.len();
    let mend = hend + md.len();
    let eend = mend + ed.len();
    crate::jvalue::lemma_subrange_split(s, i, eend, hd, spec_ser_task_tail(t));
    crate::jvalue::lemma_subrange_split(s, hend, eend, md, ed);
    lemma_task_head_at(s, i, t);
    lemma_parse_task_ws(s, i0, i);
    lemma_task_mid_at(s, hend, t, t.id as int, t.title, t.desc);
    lemma_task_end_at(s, mend, t, t.id as int, t.title, t.desc);
    match spec_parse_task(s, i0) {
        Some((tv, j)) => {
            assert(tv =~= t);
        },
        None => {
            assert(false);
        },
    }
}

/// The written task items parse back, up to the closing bracket.
#[verifier::rlimit(100)]
proof fn lemma_tasks_rest_at(s: Seq<char>, i: int, m: int, tasks: Seq<TaskView>)
    requires
        0 <= i <= m,
        m + 4 <= s.len(),
        forall|k: int| 0 <= k < tasks.len() ==> (#[trigger] tasks[k]).wf(),
        m - i == spec_ser_tasks_rest(tasks).len(),
        s.subrange(i, m) == spec_ser_tasks_rest(tasks),
        s.subrange(m, m + 3) == nl2(),
        s[m + 3] == ']',
    ensures
        spec_parse_tasks_rest(s, i) == Some((tasks, m + 4)),
    decreases tasks.len(),
{
    lemma_nl_ws();
    if tasks.len() == 0 {
        assert(i == m);
        assert(forall|k: int| i <= k < m + 3 ==> is_ws(#[trigger] s[k])) by {
            assert(forall|k: int| 0 <= k < 3 ==> #[trigger] s.subrange(m, m + 3)[k] == s[m + k]);
        }
        assert(s.subrange(m + 3, m + 4) =~= seq![']']);
        lemma_tok_at(s, i, m + 3, seq![']']);
    } else {
        let first = spec_ser_task(tasks[0]);
        let restw = spec_ser_tasks_rest(tasks.drop_first());
        assert(spec_ser_tasks_rest(tasks) == seq![','] + nl4() + first + restw);
        assert(s.subrange(i, m) == (seq![','] + nl4()) + (first + restw)) by {
            assert(seq![','] + nl4() + first + restw =~= (seq![','] + nl4()) + (first + restw));
        }
        crate::jvalue::lemma_subrange_split(s, i, m, seq![','] + nl4(), first + restw);
        crate::jvalue::lemma_subrange_split(s, i + 6, m, first, restw);
        let p = i + 6 + first.len();
        assert(s[i] == ',') by {
            assert(s.subrange(i, i + 6)[0] == s[i]);
            assert((seq![','] + nl4())[0] == ',');
        }
        assert forall|k: int| i + 1 <= k < i + 6 implies is_ws(s[k]) by {
            assert(s.subrange(i, i + 6)[k - i] == s[k]);
            assert((seq![','] + nl4())[k - i] == nl4()[k - i - 1]);
        }
        assert(spec_skip_ws(s, i) == i) by {
            crate::jtext::lemma_skip_ws_exact(s, i, i);
        }
        assert(spec_tok(s, i, seq![']']) is None) by {
            if i + 1 <= s.len() && s.subrange(i, i + 1) == seq![']'] {
                assert(s.subrange(i, i + 1)[0] == s[i]);
            }
        }
        assert(s.subrange(i, i + 1) =~= seq![',']);
        lemma_tok_at(s, i, i, seq![',']);
        lemma_task_at(s, i + 1, i + 6, tasks[0]);
        lemma_tasks_rest_at(s, p, m, tasks.drop_first());
        assert(seq![tasks[0]] + tasks.drop_first() =~= tasks);
    }
}

/// A written task array parses back, after leading whitespace.
#[verifier::rlimit(100)]
proof fn lemma_tasks_at(s: Seq<char>, i0: int, i: int, tasks: Seq<TaskView>)
    requires
        0 <= i0 <= i,
        i + spec_ser_tasks(tasks).len() <= s.len(),
        forall|k: int| 0 <= k < tasks.len() ==> (#[trigger] tasks[k]).wf(),
        forall|k: int| i0 <= k < i ==> is_ws(s[k]),
        s.subrange(i, i + spec_ser_tasks(tasks).len()) == spec_ser_tasks(tasks),
    ensures
        spec_parse_tasks(s, i0) == Some((tasks, i + spec_ser_tasks(tasks).len())),
{
    lemma_nl_ws();
    let w = spec_ser_tasks(tasks);
    let m = i + w.len();
    if tasks.len() == 0 {
        assert(s[i] == '[' && s[i + 1] == ']') by {
            assert(s.subrange(i, m)[0] == s[i]);
            assert(s.subrange(i, m)[1] == s[i + 1]);
            assert(w[0] == '[' && w[1] == ']');
        }
        assert(s.subrange(i, i + 1) =~= seq!['[']);
        lemma_tok_at(s, i0, i, seq!['[']);
        assert(s.subrange(i + 1, i + 2) =~= seq![']']);
        lemma_tok_at(s, i + 1, i + 1, seq![']']);
    } else {
        let first = spec_ser_task(tasks[0]);
        let restw = spec_ser_tasks_rest(tasks.drop_first());
        assert(w == seq!['['] + nl4() + first + restw + nl2() + seq![']']);
        assert(s.subrange(i, m) == (seq!['['] + nl4()) + (first + (restw + (nl2()
            + seq![']'])))) by {
            assert(seq!['['] + nl4() + first + restw + nl2() + seq![']'] =~= (seq!['['] + nl4())
                + (first + (restw + (nl2() + seq![']']))));
        }
        crate::jvalue::lemma_subrange_split(
            s,
            i,
            m,
            seq!['['] + nl4(),
            first + (restw + (nl2() + seq![']'])),
        );
        crate::jvalue::lemma_subrange_split(s, i + 6, m, first, restw + (nl2() + seq![']']));
        let p = i + 6 + first.len();
        crate::jvalue::lemma_subrange_split(s, p, m, restw, nl2() + seq![']']);
        let q = p + restw.len();
        crate::jvalue::lemma_subrange_split(s, q, m, nl2(), seq![']']);
        assert(s[i] == '[') by {
            assert(s.subrange(i, i + 6)[0] == s[i]);
            assert((seq!['['] + nl4())[0] == '[');
        }
        assert(s.subrange(i, i + 1) =~= seq!['[']);
        lemma_tok_at(s, i0, i, seq!['[']);
        assert forall|k: int| i + 1 <= k < i + 6 implies is_ws(s[k]) by {
            assert(s.subrange(i, i + 6)[k - i] == s[k]);
            assert((seq!['['] + nl4())[k - i] == nl4()[k - i - 1]);
        }
        assert(s[i + 6] == '{') by {
            assert(s.subrange(i + 6, p)[0] == s[i + 6]);
            assert(first[0] == '{') by {
                assert(spec_ser_task(tasks[0]) == spec_ser_task_head(tasks[0])
                    + spec_ser_task_tail(tasks[0]));
                assert(spec_ser_task_head(tasks[0])[0] == '{');
            }
        }
        assert(spec_tok(s, i + 1, seq![']']) is None) by {
            crate::jtext::lemma_skip_ws_exact(s, i + 1, i + 6);
            if i + 7 <= s.len() && s.subrange(i + 6, i + 7) == seq![']'] {
                assert(s.subrange(i + 6, i + 7)[0] == s[i + 6]);
            }
        }
        lemma_task_at(s, i + 1, i + 6, tasks[0]);
        assert(s[q + 3] == ']') by {
            assert(s.subrange(q + 3, m)[0] == s[q + 3]);
        }
        lemma_tasks_rest_at(s, p, q, tasks.drop_first());
        assert(seq![tasks[0]] + tasks.drop_first() =~= tasks);
        assert(q + 4 == m);
    }
}

/// The coarse layout of a written document: the text up to the timestamp,
/// and the text from it on.
#[verifier::rlimit(100)]
proof fn lemma_file_layout_a(f: TodoFileView)
    ensures
        ({
            let s = spec_ser_file(f);
            let runa = seq!['{'] + nl2() + key_meta() + colon_sp() + seq!['{'] + nl4()
                + key_version() + colon_sp();
            let dv = spec_dec_seq(f.version as int);
            let lv = dv.len() as int;
            let runb = seq![','] + nl4() + key_current_id() + colon_sp();
            let dc = spec_dec_seq(f.current_id as int);
            let lc = dc.len() as int;
            let runc = seq![','] + nl4() + key_generated_at() + colon_sp() + seq!['"'];
            let ts = spec_ts_seq(f.generated_at);
            let rund = seq!['"'] + nl2() + seq!['}'] + seq![','] + nl2() + key_tasks()
                + colon_sp();
            let tg = spec_ser_tasks(f.tasks);
            let ltg = tg.len() as int;
            let rune = nl0() + seq!['}'];
            &&& s.len() == 112 + lv + lc + ltg
            &&& s.subrange(0, 29) == runa
            &&& s.subrange(29, 29 + lv) == dv
            &&& s.subrange(29 + lv, 49 + lv) == runb
            &&& s.subrange(49 + lv, 49 + lv + lc) == dc
            &&& s.subrange(49 + lv + lc, 72 + lv + lc) == runc
            &&& s.subrange(72 + lv + lc, s.len() as int) == ts + (rund + (tg + rune))
        }),
{
    let s = spec_ser_file(f);
    let runa = seq!['{'] + nl2() + key_meta() + colon_sp() + seq!['{'] + nl4() + key_version()
        + colon_sp();
    let dv = spec_dec_seq(f.version as int);
    let lv = dv.len() as int;
    let runb = seq![','] + nl4() + key_current_id() + colon_sp();
    let dc = spec_dec_seq(f.current_id as int);
    let lc = dc.len() as int;
    let runc = seq![','] + nl4() + key_generated_at() + colon_sp() + seq!['"'];
    let ts = spec_ts_seq(f.generated_at);
    let rund = seq!['"'] + nl2() + seq!['}'] + seq![','] + nl2() + key_tasks() + colon_sp();
    let tg = spec_ser_tasks(f.tasks);
    let ltg = tg.len() as int;
    let rune = nl0() + seq!['}'];
    assert(s == runa + (dv + (runb + (dc + (runc + (ts + (rund + (tg + rune)))))))) by {
        reveal(spec_ser_file);
    }
    assert(s.len() == 112 + lv + lc + ltg);
    let m = s.len() as int;
    assert(s.subrange(0, m) =~= s);
    crate::jvalue::lemma_subrange_split(
        s,
        0,
        m,
        runa,
        dv + (runb + (dc + (runc + (ts + (rund + (tg + rune)))))),
    );
    crate::jvalue::lemma_subrange_split(s, 29, m, dv, runb + (dc + (runc + (ts + (rund + (tg
        + rune))))));
    crate::jvalue::lemma_subrange_split(s, 29 + lv, m, runb, dc + (runc + (ts + (rund + (tg
        + rune)))));
    crate::jvalue::lemma_subrange_split(s, 49 + lv, m, dc, runc + (ts + (rund + (tg + rune))));
    crate::jvalue::lemma_subrange_split(s, 49 + lv + lc, m, runc, ts + (rund + (tg + rune)));
}

/// The fine layout of the document's back half: the timestamp, the close
/// of the metadata block, the task array, and the final brace.
#[verifier::rlimit(100)]
proof fn lemma_file_layout(f: TodoFileView)
    ensures
        ({
            let s = spec_ser_file(f);
            let runa = seq!['{'] + nl2() + key_meta() + colon_sp() + seq!['{'] + nl4()
                + key_version() + colon_sp();
            let dv = spec_dec_seq(f.version as int);
            let lv = dv.len() as int;
            let runb = seq![','] + nl4() + key_current_id() + colon_sp();
            let dc = spec_dec_seq(f.current_id as int);
            let lc = dc.len() as int;
            let runc = seq![','] + nl4() + key_generated_at() + colon_sp() + seq!['"'];
            let ts = spec_ts_seq(f.generated_at);
            let rund = seq!['"'] + nl2() + seq!['}'] + seq![','] + nl2() + key_tasks()
                + colon_sp();
            let tg = spec_ser_tasks(f.tasks);
            let ltg = tg.len() as int;
            let rune = nl0() + seq!['}'];
            &&& s.len() == 112 + lv + lc + ltg
            &&& s.subrange(0, 29) == runa
            &&& s.subrange(29, 29 + lv) == dv
            &&& s.subrange(29 + lv, 49 + lv) == runb
            &&& s.subrange(49 + lv, 49 + lv + lc) == dc
            &&& s.subrange(49 + lv + lc, 72 + lv + lc) == runc
            &&& s.subrange(72 + lv + lc, 92 + lv + lc) == ts
            &&& s.subrange(92 + lv + lc, 110 + lv + lc) == rund
            &&& s.subrange(110 + lv + lc, 110 + lv + lc + ltg) == tg
            &&& s.subrange(110 + lv + lc + ltg, s.len() as int) == rune
        }),
{
    let s = spec_ser_file(f);
    let lv = spec_dec_seq(f.version as int).len() as int;
    let lc = spec_dec_seq(f.current_id as int).len() as int;
    let ts = spec_ts_seq(f.generated_at);
    let rund = seq!['"'] + nl2() + seq!['}'] + seq![','] + nl2() + key_tasks() + colon_sp();
    let tg = spec_ser_tasks(f.tasks);
    let ltg = tg.len() as int;
    let rune = nl0() + seq!['}'];
    lemma_file_layout_a(f);
    let m = s.len() as int;
    crate::jvalue::lemma_subrange_split(s, 72 + lv + lc, m, ts, rund + (tg + rune));
    crate::jvalue::lemma_subrange_split(s, 92 + lv + lc, m, rund, tg + rune);
    crate::jvalue::lemma_subrange_split(s, 110 + lv + lc, m, tg, rune);
}

/// The opening of a written document parses back: the outer brace, the
/// meta key, the inner brace, and the version key.
#[verifier::rlimit(100)]
proof fn lemma_file_walk_meta(f: TodoFileView)
    requires
        f.wf(),
    ensures
        ({
            let s = spec_ser_file(f);
            let lv = spec_dec_seq(f.version as int).len() as int;
            &&& spec_tok(s, 0, seq!['{']) == Some(1int)
            &&& spec_key(s, 1, key_meta()) == Some(11int)
            &&& spec_tok(s, 11, seq!['{']) == Some(13int)
            &&& spec_key(s, 13, key_version()) == Some(28int)
        }),
{
    lemma_nl_ws();
    let s = spec_ser_file(f);
    let runa = seq!['{'] + nl2() + key_meta() + colon_sp() + seq!['{'] + nl4() + key_version()
        + colon_sp();
    lemma_file_layout_a(f);
    // The opening skeleton: `{`, the meta key, the inner `{`, the version
    // key.
    assert forall|k: int| 0 <= k < 29 implies s[k] == runa[k] by {
        assert(s.subrange(0, 29)[k] == s[k]);
    }
    assert(s[0] == '{' && s[10] == ':' && s[11] == ' ' && s[12] == '{' && s[27] == ':') by {
        assert(runa[0] == '{' && runa[10] == ':' && runa[11] == ' ' && runa[12] == '{' && runa[27]
            == ':');
    }
    assert(s.subrange(0, 1) =~= seq!['{']);
    lemma_tok_at(s, 0, 0, seq!['{']);
    assert(forall|k: int| 1 <= k < 4 ==> is_ws(#[trigger] s[k])) by {
        assert(forall|k: int| 1 <= k < 4 ==> runa[k] == nl2()[k - 1]);
    }
    assert(s.subrange(4, 10) =~= key_meta()) by {
        assert(forall|k: int| 0 <= k < 6 ==> runa[4 + k] == #[trigger] key_meta()[k]);
    }
    lemma_key_at(s, 1, 4, key_meta());
    assert(s.subrange(12, 13) =~= seq!['{']);
    lemma_tok_at(s, 11, 12, seq!['{']);
    assert(forall|k: int| 13 <= k < 18 ==> is_ws(#[trigger] s[k])) by {
        assert(forall|k: int| 13 <= k < 18 ==> runa[k] == nl4()[k - 13]);
    }
    assert(s.subrange(18, 27) =~= key_version()) by {
        assert(forall|k: int| 0 <= k < 9 ==> runa[18 + k] == #[trigger] key_version()[k]);
    }
    lemma_key_at(s, 13, 18, key_version());
}

/// The version number and the comma after it.
#[verifier::rlimit(100)]
proof fn lemma_file_walk_version(f: TodoFileView)
    requires
        f.wf(),
    ensures
        ({
            let s = spec_ser_file(f);
            let lv = spec_dec_seq(f.version as int).len() as int;
            &&& spec_parse_u64_tok(s, 28) == Some((f.version as int, 29 + lv))
            &&& spec_tok(s, 29 + lv, seq![',']) == Some(30 + lv)
        }),
{
    lemma_nl_ws();
    let s = spec_ser_file(f);
    let runa = seq!['{'] + nl2() + key_meta() + colon_sp() + seq!['{'] + nl4() + key_version()
        + colon_sp();
    let dv = spec_dec_seq(f.version as int);
    let lv = dv.len() as int;
    let runb = seq![','] + nl4() + key_current_id() + colon_sp();
    lemma_file_layout_a(f);
    assert(s[28] == ' ') by {
        assert(s.subrange(0, 29)[28] == s[28]);
        assert(runa[28] == ' ');
    }
    assert(s[29 + lv] == ',') by {
        assert(s.subrange(29 + lv, 49 + lv)[0] == s[29 + lv]);
        assert(runb[0] == ',');
    }
    assert(forall|k: int| 28 <= k < 29 ==> is_ws(#[trigger] s[k]));
    lemma_u64_tok_at(s, 28, 29, f.version as int);
    assert(s.subrange(29 + lv, 30 + lv) =~= seq![',']);
    lemma_tok_at(s, 29 + lv, 29 + lv, seq![',']);
}

#[verifier::rlimit(100)]
proof fn lemma_file_walk_meta2(f: TodoFileView)
    requires
        f.wf(),
    ensures
        ({
            let s = spec_ser_file(f);
            let lv = spec_dec_seq(f.version as int).len() as int;
            let lc = spec_dec_seq(f.current_id as int).len() as int;
            &&& spec_key(s, 30 + lv, key_current_id()) == Some(48 + lv)
            &&& spec_parse_u64_tok(s, 48 + lv) == Some((f.current_id as int, 49 + lv + lc))
            &&& spec_tok(s, 49 + lv + lc, seq![',']) == Some(50 + lv + lc)
            &&& spec_key(s, 50 + lv + lc, key_generated_at()) == Some(70 + lv + lc)
            &&& spec_parse_ts_str(s, 70 + lv + lc) == Some((f.generated_at, 93 + lv + lc))
            &&& spec_tok(s, 93 + lv + lc, seq!['}']) == Some(97 + lv + lc)
        }),
{
    lemma_nl_ws();
    let s = spec_ser_file(f);
    let dv = spec_dec_seq(f.version as int);
    let lv = dv.len() as int;
    let dc = spec_dec_seq(f.current_id as int);
    let lc = dc.len() as int;
    let runc = seq![','] + nl4() + key_generated_at() + colon_sp() + seq!['"'];
    let ts = spec_ts_seq(f.generated_at);
    let rund = seq!['"'] + nl2() + seq!['}'] + seq![','] + nl2() + key_tasks() + colon_sp();
    lemma_file_layout(f);
    // The current_id key and number.
    lemma_comma_key_run_nl4(s, 29 + lv, key_current_id());
    assert(s[49 + lv + lc] == ',') by {
        assert(s.subrange(49 + lv + lc, 72 + lv + lc)[0] == s[49 + lv + lc]);
        assert(runc[0] == ',');
    }
    assert(forall|k: int| 48 + lv <= k < 49 + lv ==> is_ws(#[trigger] s[k]));
    lemma_u64_tok_at(s, 48 + lv, 49 + lv, f.current_id as int);
    assert(s.subrange(49 + lv + lc, 50 + lv + lc) =~= seq![',']);
    lemma_tok_at(s, 49 + lv + lc, 49 + lv + lc, seq![',']);
    // The generated_at key and timestamp.
    lemma_comma_key_run_nl4(s, 49 + lv + lc, key_generated_at());
    assert(s[71 + lv + lc] == '"') by {
        assert(s.subrange(49 + lv + lc, 72 + lv + lc)[22] == s[71 + lv + lc]);
        assert(runc[22] == '"');
    }
    assert(forall|k: int| 70 + lv + lc <= k < 71 + lv + lc ==> is_ws(#[trigger] s[k]));
    assert(s.subrange(72 + lv + lc, 92 + lv + lc) == ts);
    assert(s[92 + lv + lc] == '"') by {
        assert(s.subrange(92 + lv + lc, 110 + lv + lc)[0] == s[92 + lv + lc]);
        assert(rund[0] == '"');
    }
    lemma_ts_str_at(s, 70 + lv + lc, 71 + lv + lc, f.generated_at);
    // The closing brace of the meta block.
    assert forall|k: int| 0 <= k < 18 implies s[92 + lv + lc + k] == rund[k] by {
        assert(s.subrange(92 + lv + lc, 110 + lv + lc)[k] == s[92 + lv + lc + k]);
    }
    assert(s[96 + lv + lc] == '}') by {
        assert(s[92 + lv + lc + 4] == rund[4]);
        assert(rund[4] == '}');
    }
    assert forall|k: int| 93 + lv + lc <= k < 96 + lv + lc implies is_ws(s[k]) by {
        assert(s[92 + lv + lc + (k - 92 - lv - lc)] == rund[k - 92 - lv - lc]);
        assert(rund[k - 92 - lv - lc] == nl2()[k - 93 - lv - lc]);
    }
    assert(s.subrange(96 + lv + lc, 97 + lv + lc) =~= seq!['}']);
    lemma_tok_at(s, 93 + lv + lc, 96 + lv + lc, seq!['}']);
}

/// Parsing inverts writing: the document written for any valid aggregate
/// parses back to exactly that aggregate. Together with the contracts of
/// `to_json` and `load_from`, a serialize-then-deserialize round trip
/// returns the value it started from, field for field.
#[verifier::rlimit(100)]
pub proof fn lemma_load_of_json(f: TodoFileView)
    requires
        f.wf(),
    ensures
        spec_parse_file(spec_ser_file(f)) == Some(f),
{
    lemma_nl_ws();
    let s = spec_ser_file(f);
    let lv = spec_dec_seq(f.version as int).len() as int;
    let lc = spec_dec_seq(f.current_id as int).len() as int;
    let rund = seq!['"'] + nl2() + seq!['}'] + seq![','] + nl2() + key_tasks() + colon_sp();
    let tg = spec_ser_tasks(f.tasks);
    let ltg = tg.len() as int;
    let rune = nl0() + seq!['}'];
    let m = s.len() as int;
    lemma_file_layout(f);
    lemma_file_walk_meta(f);
    lemma_file_walk_version(f);
    lemma_file_walk_meta2(f);
    // The comma after the meta block, then the tasks key.
    assert forall|k: int| 0 <= k < 18 implies s[92 + lv + lc + k] == rund[k] by {
        assert(s.subrange(92 + lv + lc, 110 + lv + lc)[k] == s[92 + lv + lc + k]);
    }
    assert(s[97 + lv + lc] == ',' && s[108 + lv + lc] == ':' && s[109 + lv + lc] == ' ') by {
        assert(s[92 + lv + lc + 5] == rund[5]);
        assert(s[92 + lv + lc + 16] == rund[16]);
        assert(s[92 + lv + lc + 17] == rund[17]);
        assert(rund[5] == ',' && rund[16] == ':' && rund[17] == ' ');
    }
    assert(s.subrange(97 + lv + lc, 98 + lv + lc) =~= seq![',']);
    lemma_tok_at(s, 97 + lv + lc, 97 + lv + lc, seq![',']);
    assert forall|k: int| 98 + lv + lc <= k < 101 + lv + lc implies is_ws(s[k]) by {
        assert(s[92 + lv + lc + (k - 92 - lv - lc)] == rund[k - 92 - lv - lc]);
        assert(rund[k - 92 - lv - lc] == nl2()[k - 98 - lv - lc]);
    }
    assert(s.subrange(101 + lv + lc, 108 + lv + lc) =~= key_tasks()) by {
        assert(forall|k: int| 0 <= k < 7 ==> rund[9 + k] == #[trigger] key_tasks()[k]);
        assert(forall|k: int|
            0 <= k < 7 ==> #[trigger] s.subrange(101 + lv + lc, 108 + lv + lc)[k] == s[101 + lv
                + lc + k]);
    }
    lemma_key_at(s, 98 + lv + lc, 101 + lv + lc, key_tasks());
    // The task array.
    assert(forall|k: int| 109 + lv + lc <= k < 110 + lv + lc ==> is_ws(#[trigger] s[k]));
    lemma_tasks_at(s, 109 + lv + lc, 110 + lv + lc, f.tasks);
    // The final brace ends the document.
    assert forall|k: int| 110 + lv + lc + ltg <= k < 111 + lv + lc + ltg implies is_ws(s[k]) by {
        assert(s.subrange(110 + lv + lc + ltg, m)[k - 110 - lv - lc - ltg] == s[k]);
        assert(rune[k - 110 - lv - lc - ltg] == nl0()[k - 110 - lv - lc - ltg]);
    }
    assert(s[111 + lv + lc + ltg] == '}') by {
        assert(s.subrange(110 + lv + lc + ltg, m)[1] == s[111 + lv + lc + ltg]);
        assert(rune[1] == '}');
    }
    assert(s.subrange(111 + lv + lc + ltg, m) =~= seq!['}']);
    lemma_tok_at(s, 110 + lv + lc + ltg, 111 + lv + lc + ltg, seq!['}']);
    crate::jtext::lemma_skip_ws_exact(s, m, m);
    reveal(spec_parse_file);
    match spec_parse_file(s) {
        Some(fv) => {
            assert(fv =~= f);
        },
        None => {
            assert(false);
        },
    }
}

/// Like `lemma_comma_key_run`, at the four-space indentation of the
/// metadata block.
proof fn lemma_comma_key_run_nl4(s: Seq<char>, i: int, key: Seq<char>)
    requires
        0 <= i,
        i + 9 + key.len() <= s.len(),
        key.len() > 0,
        key[0] == '"',
        s.subrange(i, i + 8 + key.len()) == seq![','] + nl4() + key + colon_sp() || s.subrange(
            i,
            i + 9 + key.len(),
        ) == seq![','] + nl4() + key + colon_sp() + seq!['"'],
    ensures
        spec_tok(s, i, seq![',']) == Some(i + 1),
        spec_key(s, i + 1, key) == Some(i + 7 + key.len()),
        is_ws(s[i + 7 + key.len()]),
{
    lemma_nl_ws();
    let kl = key.len() as int;
    let run1 = seq![','] + nl4() + key + colon_sp();
    let run2 = seq![','] + nl4() + key + colon_sp() + seq!['"'];
    assert forall|k: int| 0 <= k < 8 + kl implies s[i + k] == run1[k] by {
        if s.subrange(i, i + 8 + kl) == run1 {
            assert(s.subrange(i, i + 8 + kl)[k] == s[i + k]);
        } else {
            assert(s.subrange(i, i + 9 + kl)[k] == s[i + k]);
            assert(run2[k] == run1[k]);
        }
    }
    assert(s[i] == ',' && s[i + 6 + kl] == ':' && s[i + 7 + kl] == ' ') by {
        assert(run1[0] == ',' && run1[6 + kl] == ':' && run1[7 + kl] == ' ');
    }
    assert forall|k: int| i + 1 <= k < i + 6 implies is_ws(s[k]) by {
        assert(run1[k - i] == nl4()[k - i - 1]);
    }
    assert(s.subrange(i + 6, i + 6 + kl) =~= key) by {
        assert(forall|k: int| 0 <= k < kl ==> run1[6 + k] == #[trigger] key[k]);
        assert(forall|k: int|
            0 <= k < kl ==> #[trigger] s.subrange(i + 6, i + 6 + kl)[k] == s[i + 6 + k]);
    }
    assert(s.subrange(i, i + 1) =~= seq![',']);
    lemma_tok_at(s, i, i, seq![',']);
    lemma_key_at(s, i + 1, i + 6, key);
}
} // verus!
