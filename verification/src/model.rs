//! The task data model: status workflow, priorities, tags, timestamps, and
//! the typed builder that makes a titleless task unrepresentable.

use vstd::prelude::*;

verus! {

/// Workflow state of a task.
#[derive(Debug, Clone, Copy, PartialEq, Eq, Structural)]
pub enum Status {
    Done,
    Pending,
    Canceled,
    InProgress,
}

/// Errors surfaced by the library's operations.
#[derive(Debug, Clone, Copy, PartialEq, Eq, Structural)]
pub enum TodoError {
    /// A field value was invalid (empty title, out-of-range priority).
    Validation,
    /// An operation referenced an identifier absent from the collection.
    NotFound,
    /// An add referenced an identifier already present.
    Duplicate,
    /// The persisted text does not parse into the expected shape.
    Deserialization,
}

impl TodoError {
    /// A short human-readable description, for the presentation layer.
    pub fn message(&self) -> (r: &'static str)
        ensures
            r@.len() > 0,
    {
        proof {
            reveal_strlit("invalid field value");
            reveal_strlit("task not found");
            reveal_strlit("task already exists");
            reveal_strlit("todo file is corrupt");
        }
        match self {
            TodoError::Validation => "invalid field value",
            TodoError::NotFound => "task not found",
            TodoError::Duplicate => "task already exists",
            TodoError::Deserialization => "todo file is corrupt",
        }
    }
}

/// Globally unique task identifier: the 128-bit value of a random UUID.
#[derive(Debug, Clone, Copy, PartialEq, Eq, Structural)]
pub struct TaskId {
    pub value: u128,
}

/// Relies on `uuid::Uuid::new_v4` (a random version-4 UUID) and
/// `Uuid::as_u128` (the identifier's 128-bit value). Nothing can be
/// promised of a random value.
#[verifier::external_body]
fn random_id_value() -> u128 {
    uuid::Uuid::new_v4().as_u128()
}

impl TaskId {
    /// Draw a fresh random identifier.
    pub fn fresh() -> TaskId {
        TaskId { value: random_id_value() }
    }
}

/// A UTC calendar timestamp, second precision, as the file format stores it.
#[derive(Debug, Clone, Copy, PartialEq, Eq, Structural)]
pub struct Timestamp {
    pub year: u16,
    pub month: u8,
    pub day: u8,
    pub hour: u8,
    pub minute: u8,
    pub second: u8,
}

/// Relies on `time::OffsetDateTime::now_utc` and its component accessors
/// `year`, `month` (via `u8::from`, January is 1), `day`, `hour`, `minute`
/// and `second`; their documented ranges are month `1..=12`, day `1..=31`,
/// hour `0..24`, minute `0..60` and second `0..60`.
#[verifier::external_body]
fn now_utc_parts() -> (r: (i32, u8, u8, u8, u8, u8))
    ensures
        1 <= r.1 <= 12,
        1 <= r.2 <= 31,
        r.3 < 24,
        r.4 < 60,
        r.5 < 60,
{
    let t = time::OffsetDateTime::now_utc();
    (t.year(), u8::from(t.month()), t.day(), t.hour(), t.minute(), t.second())
}

impl Timestamp {
    /// Field ranges the file format can represent.
    pub open spec fn wf(self) -> bool {
        &&& self.year <= 9999
        &&& 1 <= self.month <= 12
        &&& 1 <= self.day <= 31
        &&& self.hour <= 23
        &&& self.minute <= 59
        &&& self.second <= 59
    }

    /// The current UTC time, with the year clamped to the four digits the
    /// file format can hold.
    pub fn now() -> (r: Timestamp)
        ensures
            r.wf(),
    {
        let (y, month, day, hour, minute, second) = now_utc_parts();
        let year: u16 = if y < 0 {
            0
        } else if y > 9999 {
            9999
        } else {
            y as u16
        };
        Timestamp { year, month, day, hour, minute, second }
    }
}

/// ASCII-lowercase a character, the folding used for tag comparison.
pub open spec fn lower(c: char) -> char {
    if 65 <= c as int <= 90 {
        (c as int + 32) as char
    } else {
        c
    }
}

/// ASCII-lowercase a whole string.
pub open spec fn lower_seq(s: Seq<char>) -> Seq<char> {
    s.map_values(|c: char| lower(c))
}

/// No two tags are equal ignoring ASCII case.
pub open spec fn tags_ci_unique(tags: Seq<Seq<char>>) -> bool {
    forall|i: int, j: int|
        0 <= i < j < tags.len() ==> lower_seq(tags[i]) != lower_seq(tags[j])
}

/// The mathematical value of a task.
#[verifier::ext_equal]
pub ghost struct TaskView {
    pub id: u128,
    pub title: Seq<char>,
    pub desc: Option<Seq<char>>,
    pub status: Status,
    pub priority: u8,
    pub tags: Seq<Seq<char>>,
    pub created_at: Timestamp,
    pub updated_at: Option<Timestamp>,
    pub completed_at: Option<Timestamp>,
}

impl TaskView {
    /// Validity of a task: a non-empty title, priority within bounds,
    /// case-insensitively unique tags, representable timestamps, and a
    /// completion time exactly when the task is done.
    pub open spec fn wf(self) -> bool {
        &&& self.title.len() > 0
        &&& self.priority <= 5
        &&& tags_ci_unique(self.tags)
        &&& self.created_at.wf()
        &&& (self.updated_at matches Some(t) ==> t.wf())
        &&& (self.completed_at matches Some(t) ==> t.wf())
        &&& (self.status == Status::Done <==> self.completed_at is Some)
    }
}

/// The entity stored in the to-do file.
#[derive(Debug)]
pub struct Task {
    /// Immutable primary key, unique per task.
    pub id: TaskId,
    /// Required short summary.
    pub title: String,
    /// Optional long description.
    pub desc: Option<String>,
    /// Workflow state machine.
    pub status: Status,
    /// 0 = unprioritized, 5 = highest.
    pub priority: u8,
    /// Labels for filtering; insertion order kept, membership ignores case.
    pub tags: Vec<String>,
    /// Creation time, immutable once set.
    pub created_at: Timestamp,
    /// Last time a mutable field changed; `None` until the first change.
    pub updated_at: Option<Timestamp>,
    /// When the task reached `Done`.
    pub completed_at: Option<Timestamp>,
}

impl View for Task {
    type V = TaskView;

    open spec fn view(&self) -> TaskView {
        TaskView {
            id: self.id.value,
            title: self.title@,
            desc: self.desc.deep_view(),
            status: self.status,
            priority: self.priority,
            tags: self.tags.deep_view(),
            created_at: self.created_at,
            updated_at: self.updated_at,
            completed_at: self.completed_at,
        }
    }
}

impl DeepView for Task {
    type V = TaskView;

    open spec fn deep_view(&self) -> TaskView {
        self.view()
    }
}

impl Clone for Task {
    /// A copy with the same value.
    fn clone(&self) -> (r: Self)
        ensures
            r@ == self@,
    {
        let c = Task {
            id: self.id,
            title: self.title.clone(),
            desc: match &self.desc {
                Some(d) => Some(d.clone()),
                None => None,
            },
            status: self.status,
            priority: self.priority,
            tags: clone_tags(&self.tags),
            created_at: self.created_at,
            updated_at: self.updated_at,
            completed_at: self.completed_at,
        };
        proof {
            assert(c@ =~= self@);
        }
        c
    }
}

/// An element-for-element copy of a tag list.
fn clone_tags(v: &Vec<String>) -> (r: Vec<String>)
    ensures
        r@ == v@,
{
    let mut r: Vec<String> = Vec::new();
    let n = v.len();
    let mut i: usize = 0;
    while i < n
        invariant
            n == v@.len(),
            i <= n,
            r@ == v@.take(i as int),
        decreases n - i,
    {
        r.push(v[i].clone());
        proof {
            assert(r@ =~= v@.take(i + 1));
        }
        i = i + 1;
    }
    proof {
        assert(v@.take(n as int) =~= v@);
    }
    r
}

/// What `mark_done` does to a task's value.
pub open spec fn spec_mark_done(t: TaskView, now: Timestamp) -> TaskView {
    if t.status == Status::Done {
        t
    } else {
        TaskView { status: Status::Done, completed_at: Some(now), updated_at: Some(now), ..t }
    }
}

/// What `set_priority` does to a task's value, once the bound check passed.
pub open spec fn spec_set_priority(t: TaskView, p: u8, now: Timestamp) -> TaskView {
    if t.priority == p {
        t
    } else {
        TaskView { priority: p, updated_at: Some(now), ..t }
    }
}

/// Whether some tag of the list equals `tag` ignoring case.
pub open spec fn has_ci(tags: Seq<Seq<char>>, tag: Seq<char>) -> bool {
    exists|i: int| 0 <= i < tags.len() && lower_seq(tags[i]) == lower_seq(tag)
}

/// Whether the task already carries a tag equal to `tag` ignoring case.
pub open spec fn has_tag_ci(t: TaskView, tag: Seq<char>) -> bool {
    has_ci(t.tags, tag)
}

/// What `add_tag` does to a task's value.
pub open spec fn spec_add_tag(t: TaskView, tag: Seq<char>, now: Timestamp) -> TaskView {
    if has_tag_ci(t, tag) {
        t
    } else {
        TaskView { tags: t.tags.push(tag), updated_at: Some(now), ..t }
    }
}

/// ASCII-lowercase a character.
fn lower_char(c: char) -> (r: char)
    ensures
        r == lower(c),
{
    let u: u32 = c as u32;
    if 65 <= u && u <= 90 {
        proof {
            assert((u + 32) as u8 == u + 32) by (bit_vector)
                requires
                    65 <= u <= 90,
            ;
        }
        ((u + 32) as u8) as char
    } else {
        c
    }
}

/// Whether two strings are equal ignoring ASCII case.
pub(crate) fn str_eq_ci(a: &str, b: &str) -> (r: bool)
    ensures
        r == (lower_seq(a@) == lower_seq(b@)),
{
    let la = a.unicode_len();
    let lb = b.unicode_len();
    if la != lb {
        proof {
            assert(lower_seq(a@).len() != lower_seq(b@).len());
        }
        return false;
    }
    let mut i: usize = 0;
    while i < la
        invariant
            la == a@.len(),
            la == b@.len(),
            i <= la,
            forall|k: int| 0 <= k < i ==> lower(a@[k]) == lower(b@[k]),
        decreases la - i,
    {
        let ca = a.get_char(i);
        let cb = b.get_char(i);
        if lower_char(ca) != lower_char(cb) {
            proof {
                assert(lower_seq(a@)[i as int] != lower_seq(b@)[i as int]);
            }
            return false;
        }
        i = i + 1;
    }
    proof {
        assert(lower_seq(a@) =~= lower_seq(b@));
    }
    true
}

impl Task {
    /// Validity of the task's value.
    pub open spec fn wf(self) -> bool {
        self@.wf()
    }

    /// Start a builder chain, without a title yet.
    pub fn builder() -> (r: TaskBuilder<MissingTitle>)
        ensures
            r.title is None,
            r.desc is None,
            r.priority == 0,
            r.tags@.len() == 0,
    {
        TaskBuilder {
            title: None,
            desc: None,
            priority: 0,
            tags: Vec::new(),
            _state: core::marker::PhantomData,
        }
    }

    /// Mark the task done at `now`; a no-op if it is already done.
    pub fn mark_done(&mut self, now: Timestamp)
        requires
            old(self).wf(),
            now.wf(),
        ensures
            final(self)@ == spec_mark_done(old(self)@, now),
            final(self).wf(),
    {
        if self.status != Status::Done {
            self.status = Status::Done;
            self.completed_at = Some(now);
            self.updated_at = Some(now);
            proof {
                assert(self@ =~= spec_mark_done(old(self)@, now));
            }
        }
    }

    /// Change the priority, rejecting values above 5; a no-op if unchanged.
    pub fn set_priority(&mut self, p: u8, now: Timestamp) -> (r: Result<(), TodoError>)
        requires
            old(self).wf(),
            now.wf(),
        ensures
            p > 5 ==> r == Err::<(), TodoError>(TodoError::Validation) && *final(self) == *old(self),
            p <= 5 ==> r == Ok::<(), TodoError>(())
                && final(self)@ == spec_set_priority(old(self)@, p, now),
            final(self).wf(),
    {
        if p > 5 {
            return Err(TodoError::Validation);
        }
        if self.priority != p {
            self.priority = p;
            self.updated_at = Some(now);
            proof {
                assert(self@ =~= spec_set_priority(old(self)@, p, now));
            }
        }
        Ok(())
    }

    /// Append a tag unless one equal ignoring case is already present.
    pub fn add_tag(&mut self, t: String, now: Timestamp)
        requires
            old(self).wf(),
            now.wf(),
        ensures
            final(self)@ == spec_add_tag(old(self)@, t@, now),
            final(self).wf(),
    {
        let ghost tv = t@;
        let n = self.tags.len();
        let mut i: usize = 0;
        while i < n
            invariant
                n == self.tags@.len(),
                i <= n,
                *self == *old(self),
                old(self).wf(),
                tv == t@,
                forall|k: int| 0 <= k < i ==> lower_seq(self@.tags[k]) != lower_seq(tv),
            decreases n - i,
        {
            if str_eq_ci(self.tags[i].as_str(), t.as_str()) {
                proof {
                    assert(self@.tags[i as int] == self.tags@[i as int]@);
                    assert(has_tag_ci(self@, tv));
                }
                return;
            }
            proof {
                assert(self@.tags[i as int] == self.tags@[i as int]@);
            }
            i = i + 1;
        }
        assert(!has_tag_ci(old(self)@, tv));
        self.tags.push(t);
        self.updated_at = Some(now);
        proof {
            let oldv = old(self)@;
            assert(self@.tags =~= oldv.tags.push(tv));
            assert(self@ =~= spec_add_tag(oldv, tv, now));
            assert forall|a: int, b: int|
                0 <= a < b < self@.tags.len() implies lower_seq(self@.tags[a]) != lower_seq(
                self@.tags[b],
            ) by {
                if b == oldv.tags.len() {
                    assert(self@.tags[b] == tv);
                    assert(self@.tags[a] == oldv.tags[a]);
                }
            }
        }
    }
}

/// Marker: the builder does not hold a title yet.
pub struct MissingTitle;

/// Marker: the builder holds a title.
pub struct HasTitle;

/// Two-stage task builder; `build` is only reachable once a title was given.
pub struct TaskBuilder<TitleState> {
    pub title: Option<String>,
    pub desc: Option<String>,
    pub priority: u8,
    pub tags: Vec<String>,
    pub _state: core::marker::PhantomData<TitleState>,
}

impl TaskBuilder<MissingTitle> {
    /// Supply the required title, moving the builder to its final stage.
    pub fn title(self, t: String) -> (r: TaskBuilder<HasTitle>)
        ensures
            r.title == Some(t),
            r.desc == self.desc,
            r.priority == self.priority,
            r.tags == self.tags,
    {
        TaskBuilder {
            title: Some(t),
            desc: self.desc,
            priority: self.priority,
            tags: self.tags,
            _state: core::marker::PhantomData,
        }
    }
}

impl<TitleState> TaskBuilder<TitleState> {
    /// Optional free-text description.
    pub fn desc(self, d: String) -> (r: Self)
        ensures
            r.title == self.title,
            r.desc == Some(d),
            r.priority == self.priority,
            r.tags == self.tags,
    {
        Self { desc: Some(d), ..self }
    }

    /// Requested priority; `build` rejects values above 5.
    pub fn priority(self, p: u8) -> (r: Self)
        ensures
            r.title == self.title,
            r.desc == self.desc,
            r.priority == p,
            r.tags == self.tags,
    {
        Self { priority: p, ..self }
    }

    /// Add a single tag; `build` drops duplicates ignoring case.
    pub fn tag(self, t: String) -> (r: Self)
        ensures
            r.title == self.title,
            r.desc == self.desc,
            r.priority == self.priority,
            r.tags@ == self.tags@.push(t),
    {
        let mut b = self;
        b.tags.push(t);
        b
    }
}

/// The tag list `build` stores for a requested list: each tag that is not
/// preceded by one equal to it ignoring case, in order.
pub open spec fn spec_dedup_tags(tags: Seq<Seq<char>>) -> Seq<Seq<char>>
    decreases tags.len(),
{
    if tags.len() == 0 {
        Seq::empty()
    } else {
        let front = spec_dedup_tags(tags.drop_last());
        if has_ci(tags.drop_last(), tags.last()) {
            front
        } else {
            front.push(tags.last())
        }
    }
}

/// Deduplication keeps exactly the case-folded tag values: a tag has a
/// case-insensitive equal in `spec_dedup_tags(s)` exactly when it has one
/// in `s`.
proof fn lemma_dedup_ci_membership(s: Seq<Seq<char>>, x: Seq<char>)
    ensures
        has_ci(spec_dedup_tags(s), x) <==> has_ci(s, x),
    decreases s.len(),
{
    if s.len() == 0 {
    } else {
        let d = s.drop_last();
        let l = s.last();
        lemma_dedup_ci_membership(d, x);
        assert(forall|i: int| 0 <= i < d.len() ==> s[i] == d[i]);
        if has_ci(d, l) {
            if lower_seq(l) == lower_seq(x) {
                let i = choose|i: int|
                    0 <= i < d.len() && lower_seq(d[i]) == lower_seq(l);
                assert(lower_seq(s[i]) == lower_seq(x));
            }
            if has_ci(s, x) {
                let i = choose|i: int|
                    0 <= i < s.len() && lower_seq(s[i]) == lower_seq(x);
                if i < d.len() {
                    assert(lower_seq(d[i]) == lower_seq(x));
                } else {
                    assert(lower_seq(l) == lower_seq(x));
                }
            }
        } else {
            let dd = spec_dedup_tags(d);
            assert(spec_dedup_tags(s) == dd.push(l));
            assert(forall|i: int| 0 <= i < dd.len() ==> dd.push(l)[i] == dd[i]);
            assert(dd.push(l)[dd.len() as int] == l);
            if has_ci(s, x) {
                let i = choose|i: int|
                    0 <= i < s.len() && lower_seq(s[i]) == lower_seq(x);
                if i < d.len() {
                    assert(has_ci(d, x));
                    let j = choose|j: int|
                        0 <= j < dd.len() && lower_seq(dd[j]) == lower_seq(x);
                    assert(lower_seq(dd.push(l)[j]) == lower_seq(x));
                } else {
                    assert(lower_seq(dd.push(l)[dd.len() as int]) == lower_seq(x));
                }
            }
            if has_ci(dd.push(l), x) {
                let i = choose|i: int|
                    0 <= i < dd.push(l).len() && lower_seq(dd.push(l)[i]) == lower_seq(x);
                if i < dd.len() {
                    assert(has_ci(dd, x));
                } else {
                    assert(lower_seq(s.last()) == lower_seq(x));
                }
            }
        }
    }
}

impl TaskBuilder<HasTitle> {
    /// Consume the builder and produce a task: pending, freshly identified,
    /// created now. Fails if the title is empty or the priority is above 5.
    pub fn build(self) -> (r: Result<Task, TodoError>)
        requires
            self.title is Some,
        ensures
            (self.title->0@.len() == 0 || self.priority > 5) <==> r is Err,
            r matches Err(e) ==> e == TodoError::Validation,
            r matches Ok(t) ==> {
                &&& t.wf()
                &&& t@.title == self.title->0@
                &&& t@.desc == self.desc.deep_view()
                &&& t@.status == Status::Pending
                &&& t@.priority == self.priority
                &&& t@.tags == spec_dedup_tags(self.tags.deep_view())
                &&& t@.updated_at is None
                &&& t@.completed_at is None
            },
    {
        let ghost titlev = self.title->0@;
        let ghost descv = self.desc.deep_view();
        let ghost tagsv = self.tags.deep_view();
        let ghost prio = self.priority;
        let title = self.title.unwrap();
        if title.as_str().unicode_len() == 0 {
            return Err(TodoError::Validation);
        }
        if self.priority > 5 {
            return Err(TodoError::Validation);
        }
        let now = Timestamp::now();
        let mut task = Task {
            id: TaskId::fresh(),
            title,
            desc: self.desc,
            status: Status::Pending,
            priority: self.priority,
            tags: Vec::new(),
            created_at: now,
            updated_at: None,
            completed_at: None,
        };
        let requested = self.tags;
        let mut i: usize = 0;
        while i < requested.len()
            invariant
                i <= requested@.len(),
                requested.deep_view() == tagsv,
                task.wf(),
                task@.tags == spec_dedup_tags(tagsv.take(i as int)),
                task@.title == titlev,
                task@.desc == descv,
                task@.status == Status::Pending,
                task@.priority == prio,
                task@.updated_at is None,
                task@.completed_at is None,
            decreases requested@.len() - i,
        {
            proof {
                assert(tagsv.take(i + 1).drop_last() =~= tagsv.take(i as int));
                assert(tagsv.take(i + 1).last() == tagsv[i as int]);
                assert(requested.deep_view()[i as int] == requested@[i as int]@);
                lemma_dedup_ci_membership(tagsv.take(i as int), tagsv[i as int]);
            }
            add_tag_no_stamp(&mut task, requested[i].clone());
            i = i + 1;
        }
        proof {
            assert(tagsv.take(tagsv.len() as int) =~= tagsv);
        }
        Ok(task)
    }
}

/// Append `t` to the task's tags unless a case-insensitive equal is present,
/// without touching `updated_at`: tags given at build time are part of
/// creation, not a later edit.
fn add_tag_no_stamp(task: &mut Task, t: String)
    requires
        old(task).wf(),
    ensures
        final(task).wf(),
        has_ci(old(task)@.tags, t@) ==> *final(task) == *old(task),
        !has_ci(old(task)@.tags, t@) ==> final(task)@ == (TaskView {
            tags: old(task)@.tags.push(t@),
            ..old(task)@
        }),
{
    let ghost tv = t@;
    let n = task.tags.len();
    let mut i: usize = 0;
    while i < n
        invariant
            n == task.tags@.len(),
            i <= n,
            *task == *old(task),
            old(task).wf(),
            tv == t@,
            forall|k: int| 0 <= k < i ==> lower_seq(task@.tags[k]) != lower_seq(tv),
        decreases n - i,
    {
        if str_eq_ci(task.tags[i].as_str(), t.as_str()) {
            proof {
                assert(task@.tags[i as int] == task.tags@[i as int]@);
                assert(has_ci(task@.tags, tv));
            }
            return;
        }
        proof {
            assert(task@.tags[i as int] == task.tags@[i as int]@);
        }
        i = i + 1;
    }
    assert(!has_ci(old(task)@.tags, tv));
    task.tags.push(t);
    proof {
        let oldv = old(task)@;
        assert(task@.tags =~= oldv.tags.push(tv));
        assert(task@ =~= (TaskView { tags: oldv.tags.push(tv), ..oldv }));
        assert forall|a: int, b: int|
            0 <= a < b < task@.tags.len() implies lower_seq(task@.tags[a]) != lower_seq(
            task@.tags[b],
        ) by {
            if b == oldv.tags.len() {
                assert(task@.tags[b] == tv);
                assert(task@.tags[a] == oldv.tags[a]);
            }
        }
    }
}

/// File-level metadata of the persisted aggregate.
#[derive(Debug, Clone, Copy, PartialEq, Eq, Structural)]
pub struct Meta {
    /// Incremented on every successful mutation.
    pub version: u64,
    /// Vestigial sequential counter, kept for file-format compatibility.
    pub current_id: u64,
    /// When the aggregate was first created.
    pub generated_at: Timestamp,
}

/// The persisted aggregate: metadata plus the full ordered task collection.
#[derive(Debug, Clone)]
pub struct TodoFile {
    pub meta: Meta,
    pub tasks: Vec<Task>,
}

/// The mathematical value of the aggregate.
#[verifier::ext_equal]
pub ghost struct TodoFileView {
    pub version: u64,
    pub current_id: u64,
    pub generated_at: Timestamp,
    pub tasks: Seq<TaskView>,
}

impl View for TodoFile {
    type V = TodoFileView;

    open spec fn view(&self) -> TodoFileView {
        TodoFileView {
            version: self.meta.version,
            current_id: self.meta.current_id,
            generated_at: self.meta.generated_at,
            tasks: self.tasks.deep_view(),
        }
    }
}

impl DeepView for TodoFile {
    type V = TodoFileView;

    open spec fn deep_view(&self) -> TodoFileView {
        self.view()
    }
}

impl TodoFileView {
    /// Validity of the aggregate: every task is valid and identifiers are
    /// pairwise distinct.
    pub open spec fn wf(self) -> bool {
        &&& self.generated_at.wf()
        &&& (forall|i: int| 0 <= i < self.tasks.len() ==> (#[trigger] self.tasks[i]).wf())
        &&& (forall|i: int, j: int|
            0 <= i < j < self.tasks.len() ==> self.tasks[i].id != self.tasks[j].id)
    }

    /// Whether some task carries the identifier.
    pub open spec fn has_id(self, id: u128) -> bool {
        exists|i: int| 0 <= i < self.tasks.len() && self.tasks[i].id == id
    }

    /// The index of the task carrying the identifier; meaningful only when
    /// `has_id` holds (identifiers are unique under `wf`).
    pub open spec fn idx_of(self, id: u128) -> int {
        choose|i: int| 0 <= i < self.tasks.len() && self.tasks[i].id == id
    }
}

/// A version bump; the counter stops at the top of its range rather than
/// wrap.
pub open spec fn spec_bump(v: u64) -> u64 {
    if v < u64::MAX {
        (v + 1) as u64
    } else {
        v
    }
}

impl TodoFile {
    /// Validity of the aggregate's value.
    pub open spec fn wf(self) -> bool {
        self@.wf()
    }

    /// A fresh empty aggregate: version 1, no tasks, generated now.
    pub fn new() -> (r: TodoFile)
        ensures
            r@.version == 1,
            r@.current_id == 1,
            r@.generated_at.wf(),
            r@.tasks.len() == 0,
            r@.wf(),
    {
        let r = TodoFile {
            meta: Meta { version: 1, current_id: 1, generated_at: Timestamp::now() },
            tasks: Vec::new(),
        };
        proof {
            assert(r@.tasks =~= Seq::<TaskView>::empty());
        }
        r
    }

    /// Increment the version counter, called by every mutating operation
    /// just before persistence.
    pub fn bump_version(&mut self)
        ensures
            final(self)@ == (TodoFileView { version: spec_bump(old(self)@.version), ..old(self)@ }),
    {
        if self.meta.version < u64::MAX {
            self.meta.version = self.meta.version + 1;
        }
        proof {
            assert(self@ =~= (TodoFileView { version: spec_bump(old(self)@.version), ..old(self)@ }));
        }
    }
}

} // verus!
