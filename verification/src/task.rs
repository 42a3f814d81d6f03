//! Task records and the list that holds them.
//!
//! A task's dates are Unix timestamps in seconds; its priority is a whole
//! number. A list keeps its tasks ordered: higher priority first, and
//! among equal priorities the earlier-created task first.

use vstd::prelude::*;
use crate::error::BackendError;

verus! {

/// Relies on chrono's `Local::now` and `DateTime::timestamp`: the current
/// time as a Unix timestamp in seconds. The result depends on the clock,
/// so nothing is promised of it.
#[verifier::external_body]
fn now_timestamp() -> i64 {
    chrono::Local::now().timestamp()
}

/// Relies on uuid's `Uuid::new_v4` and its `Display` form: the hyphenated
/// text of a random UUID, which is always 36 characters. The value is
/// random, so only its length is promised.
#[verifier::external_body]
fn fresh_uuid_string() -> (r: String)
    ensures
        r@.len() == 36,
{
    uuid::Uuid::new_v4().to_string()
}

/// A timestamped note attached to a task.
#[derive(Debug, Clone, PartialEq)]
pub struct Note {
    pub created_date: i64,
    pub body: String,
}

/// Mathematical model of a [`Note`].
pub struct NoteModel {
    pub created_date: int,
    pub body: Seq<char>,
}

impl View for Note {
    type V = NoteModel;

    open spec fn view(&self) -> NoteModel {
        NoteModel { created_date: self.created_date as int, body: self.body@ }
    }
}

impl Note {
    /// A new note equal to this one, field for field.
    pub fn duplicate(&self) -> (r: Note)
        ensures
            r@ == self@,
    {
        Note { created_date: self.created_date, body: self.body.clone() }
    }
}

/// One task: what to do, where it belongs, when it was made and finished,
/// and how urgent it is.
#[derive(Debug, Clone, PartialEq)]
pub struct Task {
    pub id: String,
    pub title: String,
    pub context: String,
    pub created_date: i64,
    pub priority: i64,
    pub notes: Vec<Note>,
    pub completed_date: Option<i64>,
    pub body: Option<String>,
}

/// Mathematical model of a [`Task`].
pub struct TaskModel {
    pub id: Seq<char>,
    pub title: Seq<char>,
    pub context: Seq<char>,
    pub created_date: int,
    pub priority: int,
    pub notes: Seq<NoteModel>,
    pub completed_date: Option<int>,
    pub body: Option<Seq<char>>,
}

impl View for Task {
    type V = TaskModel;

    open spec fn view(&self) -> TaskModel {
        TaskModel {
            id: self.id@,
            title: self.title@,
            context: self.context@,
            created_date: self.created_date as int,
            priority: self.priority as int,
            notes: self.notes@.map_values(|n: Note| n@),
            completed_date: match self.completed_date {
                Some(t) => Some(t as int),
                None => None,
            },
            body: match &self.body {
                Some(b) => Some(b@),
                None => None,
            },
        }
    }
}

impl Task {
    /// A fresh task titled `title`: a new 8-character id, the `default`
    /// context, priority zero, created now, with no notes, no body, and
    /// not yet completed.
    pub fn new(title: &str) -> (r: Task)
        ensures
            r@.id.len() == 8,
            r@.title == title@,
            r@.context == "default"@,
            r@.priority == 0,
            r@.notes == Seq::<NoteModel>::empty(),
            r@.completed_date is None,
            r@.body is None,
    {
        let uuid = fresh_uuid_string();
        let id = uuid.as_str().substring_char(0, 8).to_owned();
        let r = Task {
            id,
            title: title.to_owned(),
            context: String::from_str("default"),
            created_date: now_timestamp(),
            priority: 0,
            notes: Vec::new(),
            completed_date: None,
            body: None,
        };
        proof {
            assert(r@.notes =~= Seq::<NoteModel>::empty());
        }
        r
    }

    /// The same task in another context.
    pub fn with_context(self, context: &str) -> (r: Task)
        ensures
            r@ == (TaskModel { context: context@, ..self@ }),
    {
        Task { context: context.to_owned(), ..self }
    }

    /// The same task at another priority.
    pub fn with_priority(self, priority: i64) -> (r: Task)
        ensures
            r@ == (TaskModel { priority: priority as int, ..self@ }),
    {
        Task { priority, ..self }
    }

    /// The same task with a long-form body.
    pub fn with_body(self, body: &str) -> (r: Task)
        ensures
            r@ == (TaskModel { body: Some(body@), ..self@ }),
    {
        Task { body: Some(body.to_owned()), ..self }
    }

    /// Mark the task completed as of now.
    pub fn complete(&mut self)
        ensures
            final(self)@.completed_date is Some,
            final(self)@ == (TaskModel {
                completed_date: final(self)@.completed_date,
                ..old(self)@
            }),
    {
        self.completed_date = Some(now_timestamp());
    }

    /// Whether the task has been completed.
    pub fn completed(&self) -> (r: bool)
        ensures
            r == (self@.completed_date is Some),
    {
        match self.completed_date {
            Some(_) => true,
            None => false,
        }
    }

    /// Attach a note, stamped with the current time.
    pub fn add_note(&mut self, message: &str)
        ensures
            final(self)@.notes.len() == old(self)@.notes.len() + 1,
            final(self)@.notes.last().body == message@,
            final(self)@.notes.take(old(self)@.notes.len() as int) == old(self)@.notes,
            final(self)@ == (TaskModel { notes: final(self)@.notes, ..old(self)@ }),
    {
        let ghost before = self@.notes;
        self.notes.push(Note { created_date: now_timestamp(), body: message.to_owned() });
        proof {
            assert(self.notes@.map_values(|n: Note| n@).take(before.len() as int) =~= before);
        }
    }

    /// Take over every field of `task` except the id; `task`'s notes are
    /// appended to the ones already here.
    pub fn update(&mut self, task: Task)
        ensures
            final(self)@ == (TaskModel {
                id: old(self)@.id,
                title: task@.title,
                context: task@.context,
                created_date: old(self)@.created_date,
                priority: task@.priority,
                notes: old(self)@.notes + task@.notes,
                completed_date: task@.completed_date,
                body: task@.body,
            }),
    {
        let mut incoming = task;
        self.title = incoming.title;
        self.context = incoming.context;
        self.priority = incoming.priority;
        self.completed_date = incoming.completed_date;
        self.body = incoming.body;
        let ghost before = self.notes@.map_values(|n: Note| n@);
        let mut moved = incoming.notes;
        self.notes.append(&mut moved);
        proof {
            assert(self.notes@.map_values(|n: Note| n@) =~= before + incoming.notes@.map_values(
                |n: Note| n@,
            ));
        }
    }

    /// A new task equal to this one, field for field.
    pub fn duplicate(&self) -> (r: Task)
        ensures
            r@ == self@,
    {
        let mut notes: Vec<Note> = Vec::new();
        let mut i: usize = 0;
        while i < self.notes.len()
            invariant
                i <= self.notes@.len(),
                notes@.map_values(|n: Note| n@) == self.notes@.map_values(|n: Note| n@).take(
                    i as int,
                ),
            decreases self.notes@.len() - i,
        {
            let ghost before = notes@.map_values(|n: Note| n@);
            notes.push(self.notes[i].duplicate());
            proof {
                assert(notes@.map_values(|n: Note| n@) =~= before.push(self.notes@[i as int]@));
                assert(self.notes@.map_values(|n: Note| n@).take(i + 1) =~= before.push(
                    self.notes@[i as int]@,
                ));
            }
            i = i + 1;
        }
        proof {
            assert(self.notes@.map_values(|n: Note| n@).take(self.notes@.len() as int)
                =~= self.notes@.map_values(|n: Note| n@));
        }
        Task {
            id: self.id.clone(),
            title: self.title.clone(),
            context: self.context.clone(),
            created_date: self.created_date,
            priority: self.priority,
            notes,
            completed_date: self.completed_date,
            body: match &self.body {
                Some(b) => Some(b.clone()),
                None => None,
            },
        }
    }
}

/// The list order: a task comes no later than another when its priority is
/// higher, or equal with an earlier (or equal) creation time.
pub open spec fn task_le(a: TaskModel, b: TaskModel) -> bool {
    a.priority > b.priority || (a.priority == b.priority && a.created_date <= b.created_date)
}

/// Where `t` lands when inserted into `s`: after every task that comes no
/// later than it, before the rest.
pub open spec fn insert_sorted(t: TaskModel, s: Seq<TaskModel>) -> Seq<TaskModel>
    decreases s.len(),
{
    if s.len() > 0 && task_le(s[0], t) {
        seq![s[0]] + insert_sorted(t, s.skip(1))
    } else {
        seq![t] + s
    }
}

/// The list order applied to a whole sequence: each task in turn inserted
/// into the sorted front. Insertion is stable, so tasks that compare equal
/// keep their original order.
pub open spec fn sort_spec(s: Seq<TaskModel>) -> Seq<TaskModel>
    decreases s.len(),
{
    if s.len() == 0 {
        s
    } else {
        insert_sorted(s.last(), sort_spec(s.drop_last()))
    }
}

/// Whether the order task `a` before task `b` respects the list order.
fn task_le_exec(a: &Task, b: &Task) -> (r: bool)
    ensures
        r == task_le(a@, b@),
{
    a.priority > b.priority || (a.priority == b.priority && a.created_date <= b.created_date)
}

/// Inserting at the boundary position matches the specification insert.
proof fn lemma_insert_sorted_at(t: TaskModel, s: Seq<TaskModel>, j: int)
    requires
        0 <= j <= s.len(),
        forall|k: int| 0 <= k < j ==> task_le(#[trigger] s[k], t),
        j < s.len() ==> !task_le(s[j], t),
    ensures
        insert_sorted(t, s) == s.take(j) + seq![t] + s.skip(j),
    decreases j,
{
    if j == 0 {
        assert(s.take(0) + seq![t] + s.skip(0) =~= seq![t] + s);
    } else {
        assert(task_le(s[0], t));
        assert(forall|k: int| 0 <= k < j - 1 ==> task_le(#[trigger] s.skip(1)[k], t));
        lemma_insert_sorted_at(t, s.skip(1), j - 1);
        assert(seq![s[0]] + (s.skip(1).take(j - 1) + seq![t] + s.skip(1).skip(j - 1)) =~= s.take(j)
            + seq![t] + s.skip(j));
    }
}

/// Insert `t` into the already sorted `out`, keeping the order.
#[verifier::loop_isolation(false)]
fn insert_task(out: &mut Vec<Task>, t: Task)
    ensures
        final(out)@.map_values(|x: Task| x@) == insert_sorted(
            t@,
            old(out)@.map_values(|x: Task| x@),
        ),
{
    let ghost s = out@.map_values(|x: Task| x@);
    let mut j: usize = 0;
    while j < out.len() && task_le_exec(&out[j], &t)
        invariant
            j <= out@.len(),
            forall|k: int| 0 <= k < j ==> task_le(#[trigger] s[k], t@),
        decreases out@.len() - j,
    {
        j = j + 1;
    }
    proof {
        lemma_insert_sorted_at(t@, s, j as int);
    }
    out.insert(j, t);
    proof {
        assert(out@.map_values(|x: Task| x@) =~= s.take(j as int) + seq![t@] + s.skip(j as int));
    }
}

/// A collection of tasks, kept in the list order.
#[derive(Debug, Clone, PartialEq)]
pub struct List {
    pub tasks: Vec<Task>,
}

impl View for List {
    type V = Seq<TaskModel>;

    open spec fn view(&self) -> Seq<TaskModel> {
        self.tasks@.map_values(|t: Task| t@)
    }
}

/// Order the tasks of `v` by the list order, stably.
#[verifier::loop_isolation(false)]
fn sort_vec(v: &mut Vec<Task>)
    ensures
        final(v)@.map_values(|t: Task| t@) == sort_spec(old(v)@.map_values(|t: Task| t@)),
{
    let ghost input = v@.map_values(|t: Task| t@);
    let mut sorted: Vec<Task> = Vec::new();
    let mut i: usize = 0;
    proof {
        assert(input.take(0) =~= Seq::<TaskModel>::empty());
        assert(sorted@.map_values(|t: Task| t@) =~= Seq::<TaskModel>::empty());
    }
    while i < v.len()
        invariant
            i <= v@.len(),
            v@.map_values(|t: Task| t@) == input,
            sorted@.map_values(|t: Task| t@) == sort_spec(input.take(i as int)),
        decreases v@.len() - i,
    {
        insert_task(&mut sorted, v[i].duplicate());
        proof {
            assert(input.take(i + 1).drop_last() =~= input.take(i as int));
            assert(input.take(i + 1).last() == input[i as int]);
        }
        i = i + 1;
    }
    proof {
        assert(input.take(input.len() as int) =~= input);
    }
    *v = sorted;
}

/// First position in `s` whose task carries `id`, or `s.len()`.
pub open spec fn find_id(s: Seq<TaskModel>, id: Seq<char>) -> int
    decreases s.len(),
{
    if s.len() == 0 {
        0
    } else if s[0].id == id {
        0
    } else {
        1 + find_id(s.skip(1), id)
    }
}

/// First position in `s` whose task carries `title`, or `s.len()`.
pub open spec fn find_title(s: Seq<TaskModel>, title: Seq<char>) -> int
    decreases s.len(),
{
    if s.len() == 0 {
        0
    } else if s[0].title == title {
        0
    } else {
        1 + find_title(s.skip(1), title)
    }
}

/// First position in `s` whose task is not yet completed, or `s.len()`.
pub open spec fn find_uncompleted(s: Seq<TaskModel>) -> int
    decreases s.len(),
{
    if s.len() == 0 {
        0
    } else if s[0].completed_date is None {
        0
    } else {
        1 + find_uncompleted(s.skip(1))
    }
}

/// The first hit of a scan for `id` is exactly `find_id`.
proof fn lemma_find_id_at(s: Seq<TaskModel>, id: Seq<char>, i: int)
    requires
        0 <= i <= s.len(),
        forall|k: int| 0 <= k < i ==> (#[trigger] s[k]).id != id,
        i < s.len() ==> s[i].id == id,
    ensures
        find_id(s, id) == i,
    decreases i,
{
    if i > 0 {
        lemma_find_id_at(s.skip(1), id, i - 1);
    }
}

/// The first hit of a scan for `title` is exactly `find_title`.
proof fn lemma_find_title_at(s: Seq<TaskModel>, title: Seq<char>, i: int)
    requires
        0 <= i <= s.len(),
        forall|k: int| 0 <= k < i ==> (#[trigger] s[k]).title != title,
        i < s.len() ==> s[i].title == title,
    ensures
        find_title(s, title) == i,
    decreases i,
{
    if i > 0 {
        lemma_find_title_at(s.skip(1), title, i - 1);
    }
}

/// The first hit of a scan for an uncompleted task is exactly
/// `find_uncompleted`.
proof fn lemma_find_uncompleted_at(s: Seq<TaskModel>, i: int)
    requires
        0 <= i <= s.len(),
        forall|k: int| 0 <= k < i ==> !((#[trigger] s[k]).completed_date is None),
        i < s.len() ==> s[i].completed_date is None,
    ensures
        find_uncompleted(s) == i,
    decreases i,
{
    if i > 0 {
        lemma_find_uncompleted_at(s.skip(1), i - 1);
    }
}

impl List {
    /// Take ownership of `tasks` and order them.
    pub fn new(tasks: Vec<Task>) -> (r: List)
        ensures
            r@ == sort_spec(tasks@.map_values(|t: Task| t@)),
    {
        let ghost input = tasks@.map_values(|t: Task| t@);
        let mut sorted: Vec<Task> = Vec::new();
        let mut i: usize = 0;
        proof {
            assert(input.take(0) =~= Seq::<TaskModel>::empty());
            assert(sorted@.map_values(|t: Task| t@) =~= Seq::<TaskModel>::empty());
        }
        while i < tasks.len()
            invariant
                i <= tasks@.len(),
                input == tasks@.map_values(|t: Task| t@),
                sorted@.map_values(|t: Task| t@) == sort_spec(input.take(i as int)),
            decreases tasks@.len() - i,
    {
            insert_task(&mut sorted, tasks[i].duplicate());
            proof {
                assert(input.take(i + 1).drop_last() =~= input.take(i as int));
                assert(input.take(i + 1).last() == input[i as int]);
            }
            i = i + 1;
        }
        proof {
            assert(input.take(input.len() as int) =~= input);
        }
        List { tasks: sorted }
    }

    /// Add one task; the list is re-ordered afterwards. Never fails.
    pub fn add(&mut self, task: Task) -> (r: Result<(), BackendError>)
        ensures
            final(self)@ == sort_spec(old(self)@.push(task@)),
            r is Ok,
    {
        let ghost before = self@;
        self.tasks.push(task);
        proof {
            assert(self.tasks@.map_values(|t: Task| t@) =~= before.push(task@));
        }
        sort_vec(&mut self.tasks);
        Ok(())
    }

    /// Add many tasks at once, emptying the given vector; the list is
    /// re-ordered once at the end. Never fails.
    pub fn add_multiple(&mut self, tasks: &mut Vec<Task>) -> (r: Result<(), BackendError>)
        ensures
            final(self)@ == sort_spec(
                old(self)@ + old(tasks)@.map_values(|t: Task| t@),
            ),
            final(tasks)@.len() == 0,
            r is Ok,
    {
        let ghost before = self@;
        let ghost incoming = tasks@.map_values(|t: Task| t@);
        self.tasks.append(tasks);
        proof {
            assert(self.tasks@.map_values(|t: Task| t@) =~= before + incoming);
        }
        sort_vec(&mut self.tasks);
        Ok(())
    }

    /// The completed tasks, when `yes_or_no` is set; nothing otherwise.
    #[verifier::loop_isolation(false)]
    pub fn completed(&self, yes_or_no: bool) -> (r: Vec<Task>)
        ensures
            r@.map_values(|t: Task| t@) == self@.filter(
                |t: TaskModel| t.completed_date is Some && yes_or_no,
            ),
    {
        let ghost pred = |t: TaskModel| t.completed_date is Some && yes_or_no;
        let mut out: Vec<Task> = Vec::new();
        let mut i: usize = 0;
        proof {
            reveal(Seq::filter);
            assert(self@.take(0) =~= Seq::<TaskModel>::empty());
            assert(out@.map_values(|t: Task| t@) =~= Seq::<TaskModel>::empty());
        }
        while i < self.tasks.len()
            invariant
                i <= self@.len(),
                out@.map_values(|t: Task| t@) == self@.take(i as int).filter(pred),
            decreases self@.len() - i,
        {
            let keep = self.tasks[i].completed() && yes_or_no;
            let ghost prev = out@.map_values(|t: Task| t@);
            if keep {
                out.push(self.tasks[i].duplicate());
            }
            proof {
                reveal(Seq::filter);
                assert(self@.take(i + 1).drop_last() =~= self@.take(i as int));
                assert(self@.take(i + 1).last() == self@[i as int]);
                if keep {
                    assert(out@.map_values(|t: Task| t@) =~= prev.push(self@[i as int]));
                }
            }
            i = i + 1;
        }
        proof {
            assert(self@.take(self@.len() as int) =~= self@);
        }
        out
    }

    /// The tasks that live in the given context.
    #[verifier::loop_isolation(false)]
    pub fn with_context(&self, context: &str) -> (r: Vec<Task>)
        ensures
            r@.map_values(|t: Task| t@) == self@.filter(
                |t: TaskModel| t.context == context@,
            ),
    {
        let ghost pred = |t: TaskModel| t.context == context@;
        let mut out: Vec<Task> = Vec::new();
        let mut i: usize = 0;
        proof {
            reveal(Seq::filter);
            assert(self@.take(0) =~= Seq::<TaskModel>::empty());
            assert(out@.map_values(|t: Task| t@) =~= Seq::<TaskModel>::empty());
        }
        while i < self.tasks.len()
            invariant
                i <= self@.len(),
                out@.map_values(|t: Task| t@) == self@.take(i as int).filter(pred),
            decreases self@.len() - i,
        {
            let keep = crate::text::str_eq(self.tasks[i].context.as_str(), context);
            let ghost prev = out@.map_values(|t: Task| t@);
            if keep {
                out.push(self.tasks[i].duplicate());
            }
            proof {
                reveal(Seq::filter);
                assert(self@.take(i + 1).drop_last() =~= self@.take(i as int));
                assert(self@.take(i + 1).last() == self@[i as int]);
                if keep {
                    assert(out@.map_values(|t: Task| t@) =~= prev.push(self@[i as int]));
                }
            }
            i = i + 1;
        }
        proof {
            assert(self@.take(self@.len() as int) =~= self@);
        }
        out
    }

    /// The tasks of the given context, as an ordered list of their own.
    pub fn context(&self, context: &str) -> (r: List)
        ensures
            r@ == sort_spec(self@.filter(|t: TaskModel| t.context == context@)),
    {
        List::new(self.with_context(context))
    }

    /// Every task of the list, as an owned vector in the list order.
    pub fn into_vec(&self) -> (r: Vec<Task>)
        ensures
            r@.map_values(|t: Task| t@) == self@,
    {
        let mut out: Vec<Task> = Vec::new();
        let mut i: usize = 0;
        while i < self.tasks.len()
            invariant
                i <= self@.len(),
                out@.map_values(|t: Task| t@) == self@.take(i as int),
            decreases self@.len() - i,
        {
            let ghost prev = out@.map_values(|t: Task| t@);
            out.push(self.tasks[i].duplicate());
            proof {
                assert(out@.map_values(|t: Task| t@) =~= prev.push(self@[i as int]));
                assert(self@.take(i + 1) =~= self@.take(i as int).push(self@[i as int]));
            }
            i = i + 1;
        }
        proof {
            assert(self@.take(self@.len() as int) =~= self@);
        }
        out
    }

    /// The position of the first task with the given id, if any.
    pub fn find_by_id(&self, id: &str) -> (r: Option<usize>)
        ensures
            match r {
                Some(i) => i < self@.len() && self@[i as int].id == id@ && i as int == find_id(
                    self@,
                    id@,
                ),
                None => find_id(self@, id@) == self@.len(),
            },
    {
        let mut i: usize = 0;
        while i < self.tasks.len()
            invariant
                i <= self@.len(),
                forall|k: int| 0 <= k < i ==> (#[trigger] self@[k]).id != id@,
            decreases self@.len() - i,
        {
            if crate::text::str_eq(self.tasks[i].id.as_str(), id) {
                proof {
                    lemma_find_id_at(self@, id@, i as int);
                }
                return Some(i);
            }
            i = i + 1;
        }
        proof {
            lemma_find_id_at(self@, id@, self@.len() as int);
        }
        None
    }

    /// The position of the first task with the given title, if any.
    pub fn find_by_title(&self, title: &str) -> (r: Option<usize>)
        ensures
            match r {
                Some(i) => i < self@.len() && self@[i as int].title == title@ && i as int
                    == find_title(self@, title@),
                None => find_title(self@, title@) == self@.len(),
            },
    {
        let mut i: usize = 0;
        while i < self.tasks.len()
            invariant
                i <= self@.len(),
                forall|k: int| 0 <= k < i ==> (#[trigger] self@[k]).title != title@,
            decreases self@.len() - i,
    {
            if crate::text::str_eq(self.tasks[i].title.as_str(), title) {
                proof {
                    lemma_find_title_at(self@, title@, i as int);
                }
                return Some(i);
            }
            i = i + 1;
        }
        proof {
            lemma_find_title_at(self@, title@, self@.len() as int);
        }
        None
    }

    /// A borrow of the task at the given position, if it exists.
    pub fn find_by_ind(&self, ind: usize) -> (r: Option<&Task>)
        ensures
            match r {
                Some(t) => ind < self@.len() && t@ == self@[ind as int],
                None => ind >= self@.len(),
            },
    {
        if ind < self.tasks.len() {
            Some(&self.tasks[ind])
        } else {
            None
        }
    }

    /// Re-order the list, then point at the current task: the first one
    /// not yet completed.
    pub fn current(&mut self) -> (r: Option<usize>)
        ensures
            final(self)@ == sort_spec(old(self)@),
            match r {
                Some(i) => i < final(self)@.len() && final(self)@[i as int].completed_date is None
                    && i as int == find_uncompleted(final(self)@),
                None => find_uncompleted(final(self)@) == final(self)@.len(),
            },
    {
        sort_vec(&mut self.tasks);
        let mut i: usize = 0;
        while i < self.tasks.len()
            invariant
                i <= self@.len(),
                self@ == sort_spec(old(self)@),
                forall|k: int| 0 <= k < i ==> !((#[trigger] self@[k]).completed_date is None),
            decreases self@.len() - i,
        {
            let done = self.tasks[i].completed();
            if !done {
                proof {
                    lemma_find_uncompleted_at(self@, i as int);
                }
                return Some(i);
            }
            i = i + 1;
        }
        proof {
            lemma_find_uncompleted_at(self@, self@.len() as int);
        }
        None
    }

    /// Complete the first task with the given id: an error when there is
    /// no such task, or when it is already completed.
    pub fn complete(&mut self, id: &str) -> (r: Result<(), BackendError>)
        ensures
            match r {
                Ok(()) => {
                    let i = find_id(old(self)@, id@);
                    &&& i < old(self)@.len()
                    &&& old(self)@[i].completed_date is None
                    &&& final(self)@[i].completed_date is Some
                    &&& final(self)@ == old(self)@.update(
                        i,
                        (TaskModel { completed_date: final(self)@[i].completed_date, ..old(self)@[i] }),
                    )
                },
                Err(BackendError::Other(m)) => find_id(old(self)@, id@) < old(self)@.len() && old(self)@[find_id(old(self)@, id@)].completed_date is Some && final(self)@ == old(self)@
                    && m@ == "Already completed."@,
                Err(e) => e@ is NotFound && find_id(old(self)@, id@) == old(self)@.len() && final(self)@ == old(self)@,
            },
    {
        match self.find_by_id(id) {
            Some(i) => {
                if self.tasks[i].completed() {
                    Err(BackendError::other("Already completed."))
                } else {
                    let mut t = self.tasks[i].duplicate();
                    t.complete();
                    let ghost before = self@;
                    self.tasks.set(i, t);
                    proof {
                        assert(self@ =~= before.update(
                            i as int,
                            (TaskModel {
                                completed_date: self@[i as int].completed_date,
                                ..before[i as int]
                            }),
                        ));
                    }
                    Ok(())
                }
            },
            None => Err(BackendError::NotFound),
        }
    }

    /// Replace the task whose id matches `new_task`'s: an error when no
    /// task carries that id.
    pub fn update(&mut self, new_task: Task) -> (r: Result<(), BackendError>)
        ensures
            match r {
                Ok(()) => {
                    let i = find_id(old(self)@, new_task@.id);
                    &&& i < old(self)@.len()
                    &&& final(self)@ == old(self)@.update(
                        i,
                        (TaskModel {
                            id: old(self)@[i].id,
                            title: new_task@.title,
                            context: new_task@.context,
                            created_date: old(self)@[i].created_date,
                            priority: new_task@.priority,
                            notes: old(self)@[i].notes + new_task@.notes,
                            completed_date: new_task@.completed_date,
                            body: new_task@.body,
                        }),
                    )
                },
                Err(e) => e@ is NotFound && find_id(old(self)@, new_task@.id) == old(self)@.len()
                    && final(self)@ == old(self)@,
            },
    {
        match self.find_by_id(new_task.id.as_str()) {
            Some(i) => {
                let mut t = self.tasks[i].duplicate();
                t.update(new_task);
                let ghost before = self@;
                self.tasks.set(i, t);
                proof {
                    assert(self@ =~= before.update(i as int, t@));
                }
                Ok(())
            },
            None => Err(BackendError::NotFound),
        }
    }

    /// Attach a note to the first task with the given id: an error when
    /// there is no such task.
    pub fn add_note(&mut self, id: &str, note: Note) -> (r: Result<(), BackendError>)
        ensures
            match r {
                Ok(()) => {
                    let i = find_id(old(self)@, id@);
                    &&& i < old(self)@.len()
                    &&& final(self)@ == old(self)@.update(
                        i,
                        (TaskModel {
                            notes: old(self)@[i].notes.push(note@),
                            ..old(self)@[i]
                        }),
                    )
                },
                Err(e) => e@ is NotFound && find_id(old(self)@, id@) == old(self)@.len() && final(self)@ == old(self)@,
            },
    {
        match self.find_by_id(id) {
            Some(i) => {
                let mut t = self.tasks[i].duplicate();
                let ghost tnotes = t@.notes;
                t.notes.push(note);
                proof {
                    assert(t.notes@.map_values(|n: Note| n@) =~= tnotes.push(note@));
                }
                let ghost before = self@;
                self.tasks.set(i, t);
                proof {
                    assert(self@ =~= before.update(
                        i as int,
                        (TaskModel { notes: before[i as int].notes.push(note@), ..before[i as int] }),
                    ));
                }
                Ok(())
            },
            None => Err(BackendError::NotFound),
        }
    }
}

} // verus!
