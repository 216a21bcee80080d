//! The download queue: the task state machine, the scheduling decisions and
//! recovery after a restart.
//!
//! State machine: Queued → Downloading → Merging → Done / Failed / Canceled;
//! a failed or canceled task can be queued again. Resuming relies on
//! yt-dlp's `-c` and its `.part` files; after a restart unfinished tasks go
//! back to Queued.
//!
//! The caller runs the downloads and keeps, per task id, the handle that
//! stops a running download and the progress figures (percentage, speed,
//! time left); this module decides what happens to the queue.

use vstd::prelude::*;
use crate::error::{ApiError, ErrorView, error_view};
use crate::parser::{url_check, validate_url};
use crate::text::copy_opt_string;

verus! {

#[derive(Clone, Copy, PartialEq, Eq, Structural, Debug)]
pub enum TaskStatus {
    Queued,
    Downloading,
    Merging,
    Done,
    Failed,
    Canceled,
}

/// A download task.
#[derive(Debug)]
pub struct Task {
    pub id: u64,
    pub url: String,
    pub title: String,
    pub thumbnail: Option<String>,
    /// "mp4-<height>" | "mp3" | "m4a"
    pub format: String,
    pub status: TaskStatus,
    pub error: Option<String>,
    pub filepath: Option<String>,
}

/// A task as character sequences.
pub struct TaskView {
    pub id: u64,
    pub url: Seq<char>,
    pub title: Seq<char>,
    pub thumbnail: Option<Seq<char>>,
    pub format: Seq<char>,
    pub status: TaskStatus,
    pub error: Option<Seq<char>>,
    pub filepath: Option<Seq<char>>,
}

impl View for Task {
    type V = TaskView;

    open spec fn view(&self) -> TaskView {
        TaskView {
            id: self.id,
            url: self.url@,
            title: self.title@,
            thumbnail: self.thumbnail.deep_view(),
            format: self.format@,
            status: self.status,
            error: self.error.deep_view(),
            filepath: self.filepath.deep_view(),
        }
    }
}

pub open spec fn task_views(ts: Seq<Task>) -> Seq<TaskView> {
    ts.map_values(|t: Task| t@)
}

impl Task {
    /// A copy of the task.
    pub fn snapshot(&self) -> (r: Task)
        ensures
            r@ == self@,
    {
        Task {
            id: self.id,
            url: self.url.clone(),
            title: self.title.clone(),
            thumbnail: copy_opt_string(&self.thumbnail),
            format: self.format.clone(),
            status: self.status,
            error: copy_opt_string(&self.error),
            filepath: copy_opt_string(&self.filepath),
        }
    }
}

/// A task the front end asks for.
pub struct NewTaskInput {
    pub url: String,
    pub title: String,
    pub thumbnail: Option<String>,
    pub format: String,
}

/// The queue: the tasks in order, the ids of the downloads that run and can
/// be stopped, and the id the next task gets.
pub struct DownloadState {
    tasks: Vec<Task>,
    running: Vec<u64>,
    next_id: u64,
}

pub struct StateView {
    pub tasks: Seq<TaskView>,
    pub running: Set<u64>,
    pub next_id: nat,
}

impl View for DownloadState {
    type V = StateView;

    closed spec fn view(&self) -> StateView {
        StateView {
            tasks: task_views(self.tasks@),
            running: Set::new(|x: u64| self.running@.contains(x)),
            next_id: self.next_id as nat,
        }
    }
}

/// Every task id lies below the id the next task gets.
pub open spec fn ids_below(ts: Seq<TaskView>, bound: nat) -> bool {
    forall|i: int| 0 <= i < ts.len() ==> (#[trigger] ts[i]).id < bound
}

proof fn lemma_push_contains(s: Seq<u64>, v: u64, x: u64)
    ensures
        s.push(v).contains(x) <==> (s.contains(x) || x == v),
{
    let t = s.push(v);
    if s.contains(x) {
        let k = choose|k: int| 0 <= k < s.len() && s[k] == x;
        assert(t[k] == x);
    }
    if x == v {
        assert(t[s.len() as int] == x);
    }
    if t.contains(x) {
        let k = choose|k: int| 0 <= k < t.len() && t[k] == x;
        if k < s.len() {
            assert(s[k] == x);
        }
    }
}

impl DownloadState {
    /// The ids of running downloads are recorded once each, and every task
    /// id lies below the next id.
    pub closed spec fn wf(&self) -> bool {
        &&& self.running@.no_duplicates()
        &&& ids_below(self@.tasks, self@.next_id)
    }

    /// Every task id of a well-formed queue lies below the id the next task
    /// gets.
    pub proof fn lemma_ids_below_next(&self)
        requires
            self.wf(),
        ensures
            ids_below(self@.tasks, self@.next_id),
    {
    }

    pub fn new() -> (r: DownloadState)
        ensures
            r.wf(),
            ids_below(r@.tasks, r@.next_id),
            r@.tasks.len() == 0,
            r@.running.is_empty(),
            r@.next_id == 0,
            consistent(r@),
    {
        let r = DownloadState { tasks: Vec::new(), running: Vec::new(), next_id: 0 };
        assert(r@.running =~= Set::empty());
        r
    }

    fn running_contains(&self, id: u64) -> (r: bool)
        ensures
            r == self@.running.contains(id),
    {
        let mut i: usize = 0;
        while i < self.running.len()
            invariant
                i <= self.running.len(),
                forall|k: int| 0 <= k < i ==> self.running@[k] != id,
            decreases self.running.len() - i,
        {
            if self.running[i] == id {
                return true;
            }
            i = i + 1;
        }
        false
    }

    fn running_insert(&mut self, id: u64)
        requires
            old(self).running@.no_duplicates(),
        ensures
            final(self).running@.no_duplicates(),
            final(self)@.running == old(self)@.running.insert(id),
            final(self).tasks == old(self).tasks,
            final(self).next_id == old(self).next_id,
    {
        let ghost before = self.running@;
        if !self.running_contains(id) {
            self.running.push(id);
            assert(self.running@ == before.push(id));
            assert forall|x: u64| self.running@.contains(x) <==> (before.contains(x) || x == id) by {
                lemma_push_contains(before, id, x);
            }
            assert forall|a: int, b: int|
                0 <= a < b < self.running@.len() implies self.running@[a] != self.running@[b] by {
                if b == before.len() {
                    assert(before.contains(before[a]));
                }
            }
        }
        assert(self@.running =~= old(self)@.running.insert(id));
    }

    fn running_remove(&mut self, id: u64)
        requires
            old(self).running@.no_duplicates(),
        ensures
            final(self).running@.no_duplicates(),
            final(self)@.running == old(self)@.running.remove(id),
            final(self).tasks == old(self).tasks,
            final(self).next_id == old(self).next_id,
    {
        let mut i: usize = 0;
        while i < self.running.len()
            invariant
                i <= self.running.len(),
                forall|k: int| 0 <= k < i ==> self.running@[k] != id,
                self.running@ == old(self).running@,
                self.running@.no_duplicates(),
                self.tasks == old(self).tasks,
                self.next_id == old(self).next_id,
            decreases self.running.len() - i,
        {
            if self.running[i] == id {
                let ghost before = self.running@;
                self.running.remove(i);
                assert(self.running@ == before.remove(i as int));
                assert forall|a: int, b: int|
                    0 <= a < b < self.running@.len() implies self.running@[a] != self.running@[b] by {
                    let a2 = if a < i { a } else { a + 1 };
                    let b2 = if b < i { b } else { b + 1 };
                    assert(self.running@[a] == before[a2]);
                    assert(self.running@[b] == before[b2]);
                }
                assert forall|x: u64| self.running@.contains(x) <==> (before.contains(x) && x != id) by {
                    if before.contains(x) && x != id {
                        let k = choose|k: int| 0 <= k < before.len() && before[k] == x;
                        if k < i {
                            assert(self.running@[k] == x);
                        } else {
                            assert(k != i);
                            assert(self.running@[k - 1] == x);
                        }
                    }
                    if self.running@.contains(x) {
                        let k = choose|k: int| 0 <= k < self.running@.len() && self.running@[k] == x;
                        if k < i {
                            assert(before[k] == x);
                        } else {
                            assert(before[k + 1] == x);
                            assert(before[i as int] == id);
                        }
                    }
                }
                assert(self@.running =~= old(self)@.running.remove(id));
                return;
            }
            i = i + 1;
        }
        assert(self@.running =~= old(self)@.running.remove(id));
    }
}

impl Default for DownloadState {
    fn default() -> (r: DownloadState)
        ensures
            r.wf(),
            ids_below(r@.tasks, r@.next_id),
            r@.tasks.len() == 0,
            r@.running.is_empty(),
            r@.next_id == 0,
            consistent(r@),
    {
        DownloadState::new()
    }
}

// ---------------------------------------------------------------- lookups

/// The first position at or after `i` of a task with id `id`.
pub open spec fn find_id_from(ts: Seq<TaskView>, id: u64, i: int) -> Option<int>
    decreases ts.len() - i,
{
    if i < 0 || i >= ts.len() {
        None
    } else if ts[i].id == id {
        Some(i)
    } else {
        find_id_from(ts, id, i + 1)
    }
}

/// The position of the first task with id `id`.
pub open spec fn find_id(ts: Seq<TaskView>, id: u64) -> Option<int> {
    find_id_from(ts, id, 0)
}

/// The first position at or after `i` of a queued task with id `id`.
pub open spec fn find_queued_from(ts: Seq<TaskView>, id: u64, i: int) -> Option<int>
    decreases ts.len() - i,
{
    if i < 0 || i >= ts.len() {
        None
    } else if ts[i].id == id && ts[i].status == TaskStatus::Queued {
        Some(i)
    } else {
        find_queued_from(ts, id, i + 1)
    }
}

proof fn lemma_find_id_from(ts: Seq<TaskView>, id: u64, i: int)
    requires
        0 <= i,
    ensures
        find_id_from(ts, id, i) matches Some(j) ==> i <= j < ts.len() && ts[j].id == id && forall|k: int|
            i <= k < j ==> ts[k].id != id,
        find_id_from(ts, id, i) is None ==> forall|k: int| i <= k < ts.len() ==> ts[k].id != id,
    decreases ts.len() - i,
{
    if i < ts.len() && ts[i].id != id {
        lemma_find_id_from(ts, id, i + 1);
    }
}

proof fn lemma_find_queued_from(ts: Seq<TaskView>, id: u64, i: int)
    requires
        0 <= i,
    ensures
        find_queued_from(ts, id, i) matches Some(j) ==> i <= j < ts.len() && ts[j].id == id
            && ts[j].status == TaskStatus::Queued,
    decreases ts.len() - i,
{
    if i < ts.len() && !(ts[i].id == id && ts[i].status == TaskStatus::Queued) {
        lemma_find_queued_from(ts, id, i + 1);
    }
}

impl DownloadState {
    fn find_task(&self, id: u64) -> (r: Option<usize>)
        ensures
            r matches Some(i) ==> find_id(self@.tasks, id) == Some(i as int) && i < self.tasks.len(),
            r is None ==> find_id(self@.tasks, id) is None,
    {
        let mut i: usize = 0;
        while i < self.tasks.len()
            invariant
                i <= self.tasks.len(),
                find_id(self@.tasks, id) == find_id_from(self@.tasks, id, i as int),
            decreases self.tasks.len() - i,
        {
            if self.tasks[i].id == id {
                return Some(i);
            }
            i = i + 1;
        }
        None
    }
}

// ---------------------------------------------------------------- add_tasks

/// The view of the task created for `item` under `id`, its URL validated.
pub open spec fn created_view(item: NewTaskInput, id: int) -> TaskView {
    TaskView {
        id: id as u64,
        url: url_check(item.url@)->Ok_0,
        title: item.title@,
        thumbnail: item.thumbnail.deep_view(),
        format: item.format@,
        status: TaskStatus::Queued,
        error: None,
        filepath: None,
    }
}

/// The position of the first item at or after `i` whose URL is refused, or
/// the number of items if there is none.
pub open spec fn first_refused_from(items: Seq<NewTaskInput>, i: int) -> int
    decreases items.len() - i,
{
    if i < 0 || i >= items.len() {
        items.len() as int
    } else if url_check(items[i].url@) is Err {
        i
    } else {
        first_refused_from(items, i + 1)
    }
}

pub open spec fn first_refused(items: Seq<NewTaskInput>) -> int {
    first_refused_from(items, 0)
}

/// The tasks created for the first `k` items, with ids from `next_id` on.
pub open spec fn created_views(items: Seq<NewTaskInput>, next_id: nat, k: int) -> Seq<TaskView> {
    Seq::new(k as nat, |j: int| created_view(items[j], next_id + j))
}

proof fn lemma_first_refused(items: Seq<NewTaskInput>, i: int)
    requires
        0 <= i <= items.len(),
    ensures
        i <= first_refused_from(items, i) <= items.len(),
        forall|k: int| i <= k < first_refused_from(items, i) ==> url_check(#[trigger] items[k].url@) is Ok,
        first_refused_from(items, i) < items.len() ==> url_check(
            items[first_refused_from(items, i)].url@,
        ) is Err,
    decreases items.len() - i,
{
    if i < items.len() && url_check(items[i].url@) is Ok {
        lemma_first_refused(items, i + 1);
    }
}

/// Adds tasks, in order, each queued under a new id; its URL is validated
/// first. At the first refused URL the call stops with that error: the
/// tasks added before it stay in the queue.
pub fn add_tasks(state: &mut DownloadState, items: Vec<NewTaskInput>) -> (r: Result<Vec<Task>, ApiError>)
    requires
        old(state).wf(),
        old(state)@.next_id + first_refused(items@) <= u64::MAX,
    ensures
        final(state).wf(),
        ids_below(final(state)@.tasks, final(state)@.next_id),
        final(state)@.tasks == old(state)@.tasks + created_views(
            items@,
            old(state)@.next_id,
            first_refused(items@),
        ),
        final(state)@.next_id == old(state)@.next_id + first_refused(items@),
        final(state)@.running == old(state)@.running,
        consistent(old(state)@) ==> consistent(final(state)@),
        first_refused(items@) < items@.len() <==> r is Err,
        r matches Err(e) ==> Err::<Seq<char>, ErrorView>(e@) == url_check(
            items@[first_refused(items@)].url@,
        ),
        r matches Ok(v) ==> task_views(v@) == created_views(
            items@,
            old(state)@.next_id,
            items@.len() as int,
        ),
{
    proof {
        lemma_first_refused(items@, 0);
    }
    let ghost k = first_refused(items@);
    let ghost old_tasks = state@.tasks;
    let ghost start = state@.next_id;
    let mut created: Vec<Task> = Vec::new();
    let mut i: usize = 0;
    assert(first_refused_from(items@, 0) == k);
    while i < items.len()
        invariant
            i <= items.len(),
            0 <= k <= items.len(),
            k == first_refused(items@),
            forall|j: int| 0 <= j < k ==> url_check(#[trigger] items@[j].url@) is Ok,
            k < items.len() ==> url_check(items@[k].url@) is Err,
            i <= k,
            start + k <= u64::MAX,
            start == old(state)@.next_id,
            old_tasks == old(state)@.tasks,
            state.wf(),
            state@.next_id == start + i,
            state@.running == old(state)@.running,
            state@.tasks == old_tasks + created_views(items@, start, i as int),
            task_views(created@) == created_views(items@, start, i as int),
            ids_below(old_tasks, start),
            consistent(old(state)@) ==> consistent(state@),
        decreases items.len() - i,
    {
        let item = &items[i];
        let url = match validate_url(item.url.as_str()) {
            Ok(u) => u,
            Err(e) => {
                assert(i as int == k) by {
                    if i < k {
                        assert(url_check(items@[i as int].url@) is Ok);
                    }
                }
                return Err(e);
            },
        };
        assert(i < k) by {
            if i == k {
                assert(url_check(items@[k].url@) is Err);
            }
        }
        let id = state.next_id;
        state.next_id = state.next_id + 1;
        let task = Task {
            id,
            url,
            title: item.title.clone(),
            thumbnail: copy_opt_string(&item.thumbnail),
            format: item.format.clone(),
            status: TaskStatus::Queued,
            error: None,
            filepath: None,
        };
        let snap = task.snapshot();
        assert(task@ == created_view(items@[i as int], start + i));
        let ghost before = state@.tasks;
        let ghost before_view = state@;
        state.tasks.push(task);
        created.push(snap);
        assert(created_views(items@, start, i + 1) =~= created_views(items@, start, i as int).push(
            created_view(items@[i as int], start + i),
        ));
        assert(state@.tasks =~= before.push(created_view(items@[i as int], start + i)));
        assert(task_views(created@) =~= created_views(items@, start, i + 1));
        assert(ids_below(state@.tasks, state@.next_id)) by {
            assert forall|j: int| 0 <= j < state@.tasks.len() implies (#[trigger] state@.tasks[j]).id
                < state@.next_id by {
                if j < old_tasks.len() {
                    assert(state@.tasks[j] == old_tasks[j]);
                } else {
                    assert(state@.tasks[j] == created_views(items@, start, i + 1)[j - old_tasks.len()]);
                }
            }
        }
        proof {
            if consistent(old(state)@) {
                lemma_consistent_push(before_view, state@, created_view(items@[i as int], start + i));
            }
        }
        i = i + 1;
    }
    Ok(created)
}

/// The ids that adding tasks hands out are new: each is at least the id
/// the next task was to get, no task in the queue holds one of them, and
/// they differ from each other. So after adding, all ids still lie below the
/// next id, and ids that were distinct stay distinct.
pub proof fn law_add_tasks_fresh_ids(s: StateView, items: Seq<NewTaskInput>)
    requires
        ids_below(s.tasks, s.next_id),
        s.next_id + first_refused(items) <= u64::MAX,
    ensures
        forall|j: int|
            0 <= j < first_refused(items) ==> (#[trigger] created_views(items, s.next_id, first_refused(items))[j]).id
                >= s.next_id,
        ids_below(
            s.tasks + created_views(items, s.next_id, first_refused(items)),
            (s.next_id + first_refused(items)) as nat,
        ),
        distinct_ids(s.tasks) ==> distinct_ids(s.tasks + created_views(items, s.next_id, first_refused(items))),
        forall|i: int, j: int|
            0 <= i < s.tasks.len() && 0 <= j < first_refused(items) ==> (#[trigger] s.tasks[i]).id
                != (#[trigger] created_views(items, s.next_id, first_refused(items))[j]).id,
        forall|a: int, b: int|
            0 <= a < b < first_refused(items) ==> created_views(items, s.next_id, first_refused(items))[a].id
                != created_views(items, s.next_id, first_refused(items))[b].id,
{
    lemma_first_refused(items, 0);
    let k = first_refused(items);
    let cs = created_views(items, s.next_id, k);
    assert forall|i: int, j: int| 0 <= i < s.tasks.len() && 0 <= j < k implies (#[trigger] s.tasks[i]).id
        != (#[trigger] cs[j]).id by {
        assert(s.tasks[i].id < s.next_id);
        assert(cs[j].id == s.next_id + j);
    }
    assert forall|a: int, b: int| 0 <= a < b < k implies cs[a].id != cs[b].id by {
        assert(cs[a].id == s.next_id + a);
        assert(cs[b].id == s.next_id + b);
    }
    let all = s.tasks + cs;
    assert forall|j: int| 0 <= j < all.len() implies (#[trigger] all[j]).id < s.next_id + k by {
        if j < s.tasks.len() {
            assert(all[j] == s.tasks[j]);
        } else {
            assert(all[j] == cs[j - s.tasks.len()]);
        }
    }
    if distinct_ids(s.tasks) {
        assert forall|a: int, b: int| 0 <= a < b < all.len() implies (#[trigger] all[a]).id
            != (#[trigger] all[b]).id by {
            if b < s.tasks.len() {
                assert(all[a] == s.tasks[a]);
                assert(all[b] == s.tasks[b]);
            } else if a < s.tasks.len() {
                assert(all[a] == s.tasks[a]);
                assert(all[b] == cs[b - s.tasks.len()]);
                assert(s.tasks[a].id < s.next_id);
            } else {
                assert(all[a] == cs[a - s.tasks.len()]);
                assert(all[b] == cs[b - s.tasks.len()]);
            }
        }
    }
}

/// A copy of the first task with id `id`, if there is one.
pub fn task_by_id(state: &DownloadState, id: u64) -> (r: Option<Task>)
    ensures
        match find_id(state@.tasks, id) {
            None => r is None,
            Some(j) => r matches Some(t) && t@ == state@.tasks[j],
        },
{
    match state.find_task(id) {
        None => None,
        Some(j) => Some(state.tasks[j].snapshot()),
    }
}

/// The id the next task gets.
pub fn next_task_id(state: &DownloadState) -> (r: u64)
    ensures
        r == state@.next_id,
{
    state.next_id
}

/// A copy of the tasks, in order.
pub fn get_tasks(state: &DownloadState) -> (r: Vec<Task>)
    ensures
        task_views(r@) == state@.tasks,
{
    let mut out: Vec<Task> = Vec::new();
    let mut i: usize = 0;
    while i < state.tasks.len()
        invariant
            i <= state.tasks.len(),
            task_views(out@) == state@.tasks.take(i as int),
        decreases state.tasks.len() - i,
    {
        let snap = state.tasks[i].snapshot();
        let ghost before = out@;
        out.push(snap);
        assert(out@ == before.push(snap));
        assert(task_views(out@) =~= task_views(before).push(snap@));
        assert(state@.tasks[i as int] == state.tasks@[i as int]@);
        assert(task_views(out@) =~= state@.tasks.take(i + 1));
        i = i + 1;
    }
    assert(state@.tasks.take(state.tasks.len() as int) =~= state@.tasks);
    out
}


// ---------------------------------------------------------------- task changes

pub open spec fn with_status(t: TaskView, s: TaskStatus) -> TaskView {
    TaskView { status: s, ..t }
}

pub open spec fn is_active(s: TaskStatus) -> bool {
    s == TaskStatus::Downloading || s == TaskStatus::Merging
}

/// The number of tasks whose download is under way (downloading or merging).
pub open spec fn count_active(ts: Seq<TaskView>) -> nat
    decreases ts.len(),
{
    if ts.len() == 0 {
        0
    } else {
        count_active(ts.drop_last()) + if is_active(ts.last().status) {
            1nat
        } else {
            0nat
        }
    }
}

/// The number of queued tasks.
pub open spec fn count_queued(ts: Seq<TaskView>) -> nat
    decreases ts.len(),
{
    if ts.len() == 0 {
        0
    } else {
        count_queued(ts.drop_last()) + if ts.last().status == TaskStatus::Queued {
            1nat
        } else {
            0nat
        }
    }
}

/// How many queued tasks the scheduler starts with `c` concurrent slots:
/// as many as there are free slots, and no more than are queued.
pub open spec fn pump_quota(ts: Seq<TaskView>, c: nat) -> nat {
    let a = count_active(ts);
    let q = count_queued(ts);
    if a >= c {
        0
    } else if q < c - a {
        q
    } else {
        (c - a) as nat
    }
}

/// The task at `j` is among the first `pump_quota` queued tasks.
pub open spec fn pump_starts(ts: Seq<TaskView>, c: nat, j: int) -> bool {
    ts[j].status == TaskStatus::Queued && count_queued(ts.take(j)) < pump_quota(ts, c)
}

/// A task whose download starts: downloading, its earlier error cleared.
pub open spec fn started_view(t: TaskView) -> TaskView {
    TaskView { status: TaskStatus::Downloading, error: None, ..t }
}

/// The tasks after the scheduler ran.
pub open spec fn pump_tasks(ts: Seq<TaskView>, c: nat) -> Seq<TaskView> {
    Seq::new(ts.len(), |j: int| if pump_starts(ts, c, j) { started_view(ts[j]) } else { ts[j] })
}

/// The ids of the tasks among the first `n` that the scheduler starts.
pub open spec fn pump_ids(ts: Seq<TaskView>, c: nat, n: int) -> Set<u64> {
    Set::new(|id: u64| exists|j: int| 0 <= j < n && pump_starts(ts, c, j) && #[trigger] ts[j].id == id)
}

proof fn lemma_take_step(ts: Seq<TaskView>, i: int)
    requires
        0 <= i < ts.len(),
    ensures
        count_queued(ts.take(i + 1)) == count_queued(ts.take(i)) + if ts[i].status
            == TaskStatus::Queued {
            1nat
        } else {
            0nat
        },
        count_active(ts.take(i + 1)) == count_active(ts.take(i)) + if is_active(ts[i].status) {
            1nat
        } else {
            0nat
        },
        count_queued(ts.take(i)) <= i,
        count_active(ts.take(i)) <= i,
    decreases i,
{
    assert(ts.take(i + 1).drop_last() =~= ts.take(i));
    assert(ts.take(i + 1).last() == ts[i]);
    if i > 0 {
        lemma_take_step(ts, i - 1);
    } else {
        assert(ts.take(0).len() == 0);
    }
}

proof fn lemma_queued_before(ts: Seq<TaskView>, j: int, i: int)
    requires
        0 <= j < i <= ts.len(),
        ts[j].status == TaskStatus::Queued,
    ensures
        count_queued(ts.take(j)) < count_queued(ts.take(i)),
    decreases i - j,
{
    lemma_take_step(ts, i - 1);
    if j < i - 1 {
        lemma_queued_before(ts, j, i - 1);
    }
}

impl DownloadState {
    proof fn lemma_set_field(&self, old_tasks: Seq<Task>, j: int)
        requires
            0 <= j < old_tasks.len(),
            self.tasks@ == old_tasks.update(j, self.tasks@[j]),
        ensures
            self@.tasks == task_views(old_tasks).update(j, self.tasks@[j]@),
    {
        assert(self@.tasks =~= task_views(old_tasks).update(j, self.tasks@[j]@));
    }
}

/// The scheduler: while there are free slots (fewer than `concurrency`
/// downloads under way) and queued tasks, the first queued task starts. Gives
/// the started tasks, in the order they start; their ids join the running
/// downloads.
pub fn pump(state: &mut DownloadState, concurrency: usize) -> (r: Vec<Task>)
    requires
        old(state).wf(),
    ensures
        final(state).wf(),
        ids_below(final(state)@.tasks, final(state)@.next_id),
        final(state)@.tasks == pump_tasks(old(state)@.tasks, concurrency as nat),
        final(state)@.running == old(state)@.running.union(
            pump_ids(old(state)@.tasks, concurrency as nat, old(state)@.tasks.len() as int),
        ),
        final(state)@.next_id == old(state)@.next_id,
        consistent(old(state)@) ==> consistent(final(state)@),
        r@.len() == pump_quota(old(state)@.tasks, concurrency as nat),
        forall|j: int|
            0 <= j < old(state)@.tasks.len() && pump_starts(old(state)@.tasks, concurrency as nat, j)
                ==> r@[count_queued(old(state)@.tasks.take(j)) as int]@ == started_view(
                old(state)@.tasks[j],
            ),
{
    let ghost ts = state@.tasks;
    let ghost c = concurrency as nat;
    let n = state.tasks.len();
    let mut a: usize = 0;
    let mut q: usize = 0;
    let mut i: usize = 0;
    assert(ts.take(0).len() == 0);
    while i < n
        invariant
            n == state.tasks.len(),
            ts == state@.tasks,
            ts.len() == n,
            i <= n,
            a == count_active(ts.take(i as int)),
            q == count_queued(ts.take(i as int)),
            a <= i,
            q <= i,
        decreases n - i,
    {
        proof {
            lemma_take_step(ts, i as int);
        }
        assert(state@.tasks[i as int].status == state.tasks@[i as int].status);
        let st = state.tasks[i].status;
        if st == TaskStatus::Downloading || st == TaskStatus::Merging {
            a = a + 1;
        }
        if st == TaskStatus::Queued {
            q = q + 1;
        }
        i = i + 1;
    }
    assert(ts.take(n as int) =~= ts);
    let quota: usize = if a >= concurrency {
        0
    } else if q < concurrency - a {
        q
    } else {
        concurrency - a
    };
    assert(quota == pump_quota(ts, c));
    let ghost old_running = state@.running;
    let ghost old_tasks = state.tasks@;
    let mut out: Vec<Task> = Vec::new();
    let mut seen: usize = 0;
    i = 0;
    assert(pump_ids(ts, c, 0) =~= Set::empty());
    assert(old_running.union(Set::empty()) =~= old_running);
    while i < n
        invariant
            n == state.tasks.len(),
            ts.len() == n,
            ts == task_views(old_tasks),
            old_tasks.len() == n,
            i <= n,
            state.wf(),
            state@.next_id == old(state)@.next_id,
            quota == pump_quota(ts, c),
            quota <= count_queued(ts),
            seen == count_queued(ts.take(i as int)),
            seen <= i,
            out@.len() == if seen < quota { seen } else { quota },
            forall|j: int| 0 <= j < i ==> state@.tasks[j] == pump_tasks(ts, c)[j],
            forall|j: int| i <= j < n ==> state.tasks@[j] == old_tasks[j],
            state@.running == old_running.union(pump_ids(ts, c, i as int)),
            forall|j: int|
                0 <= j < i && pump_starts(ts, c, j) ==> out@[count_queued(ts.take(j)) as int]@
                    == started_view(ts[j]),
        decreases n - i,
    {
        proof {
            lemma_take_step(ts, i as int);
        }
        let ghost before_tasks = state.tasks@;
        assert(ids_below(task_views(before_tasks), state@.next_id));
        let ghost before_out = out@;
        let ghost before_running = state@.running;
        let is_queued = state.tasks[i].status == TaskStatus::Queued;
        assert(state.tasks@[i as int] == old_tasks[i as int]);
        assert(ts[i as int] == old_tasks[i as int]@);
        if is_queued && seen < quota {
            assert(pump_starts(ts, c, i as int));
            state.tasks[i].status = TaskStatus::Downloading;
            state.tasks[i].error = None;
            proof {
                assert(state.tasks@ =~= before_tasks.update(i as int, state.tasks@[i as int]));
                state.lemma_set_field(before_tasks, i as int);
                assert(state.tasks@[i as int]@ == started_view(ts[i as int]));
            }
            let snap = state.tasks[i].snapshot();
            let id = state.tasks[i].id;
            out.push(snap);
            state.running_insert(id);
            proof {
                lemma_status_change_keeps_ids(task_views(before_tasks), state@.tasks, state@.next_id);
            }
            assert(state@.running =~= old_running.union(pump_ids(ts, c, i + 1))) by {
                assert forall|x: u64| #[trigger] pump_ids(ts, c, i + 1).contains(x) <==> (pump_ids(
                    ts,
                    c,
                    i as int,
                ).contains(x) || x == id) by {
                    if pump_ids(ts, c, i + 1).contains(x) && x != id {
                        let j = choose|j: int| 0 <= j < i + 1 && pump_starts(ts, c, j) && #[trigger] ts[j].id == x;
                        assert(j != i);
                    }
                    if x == id {
                        assert(ts[i as int].id == x);
                    }
                }
            }
        } else {
            assert(!pump_starts(ts, c, i as int));
            assert(state@.running =~= old_running.union(pump_ids(ts, c, i + 1))) by {
                assert forall|x: u64| #[trigger] pump_ids(ts, c, i + 1).contains(x) implies pump_ids(
                    ts,
                    c,
                    i as int,
                ).contains(x) by {
                    if pump_ids(ts, c, i + 1).contains(x) {
                        let j = choose|j: int| 0 <= j < i + 1 && pump_starts(ts, c, j) && #[trigger] ts[j].id == x;
                        assert(j != i);
                    }
                }
            }
        }
        if is_queued {
            seen = seen + 1;
        }
        assert(forall|j: int| 0 <= j < i + 1 ==> state@.tasks[j] == pump_tasks(ts, c)[j]) by {
            assert forall|j: int| 0 <= j < i + 1 implies state@.tasks[j] == pump_tasks(ts, c)[j] by {
                if j < i {
                    assert(state.tasks@[j] == before_tasks[j]);
                }
            }
        }
        assert forall|j: int|
            0 <= j < i + 1 && pump_starts(ts, c, j) implies out@[count_queued(ts.take(j)) as int]@
            == started_view(ts[j]) by {
            if j < i {
                assert(count_queued(ts.take(j)) < quota);
                lemma_queued_before(ts, j, i as int);
                assert(out@[count_queued(ts.take(j)) as int] == before_out[count_queued(ts.take(j)) as int]);
            }
        }
        i = i + 1;
    }
    assert(ts.take(n as int) =~= ts);
    proof {
        assert(state@.tasks =~= pump_tasks(ts, c));
        if consistent(old(state)@) {
            lemma_consistent_pump(old(state)@, c);
        }
    }
    out
}


proof fn lemma_pump_counts_prefix(ts: Seq<TaskView>, c: nat, k: int)
    requires
        0 <= k <= ts.len(),
    ensures
        count_active(pump_tasks(ts, c).take(k)) == count_active(ts.take(k)) + if count_queued(
            ts.take(k),
        ) < pump_quota(ts, c) {
            count_queued(ts.take(k))
        } else {
            pump_quota(ts, c)
        },
        count_queued(pump_tasks(ts, c).take(k)) + (if count_queued(ts.take(k)) < pump_quota(ts, c) {
            count_queued(ts.take(k))
        } else {
            pump_quota(ts, c)
        }) == count_queued(ts.take(k)),
    decreases k,
{
    let ps = pump_tasks(ts, c);
    if k > 0 {
        lemma_pump_counts_prefix(ts, c, k - 1);
        lemma_take_step(ts, k - 1);
        lemma_take_step(ps, k - 1);
    } else {
        assert(ts.take(0).len() == 0);
        assert(ps.take(0).len() == 0);
    }
}

/// The scheduler starts exactly its quota of queued tasks, so the downloads
/// under way never exceed the concurrency limit (unless they already did),
/// and a slot stays free only when nothing is left queued.
pub proof fn law_pump_respects_concurrency(ts: Seq<TaskView>, c: nat)
    ensures
        count_active(pump_tasks(ts, c)) == count_active(ts) + pump_quota(ts, c),
        count_queued(pump_tasks(ts, c)) == count_queued(ts) - pump_quota(ts, c),
        count_active(pump_tasks(ts, c)) <= if count_active(ts) > c {
            count_active(ts)
        } else {
            c
        },
        count_active(pump_tasks(ts, c)) < c ==> count_queued(pump_tasks(ts, c)) == 0,
{
    let ps = pump_tasks(ts, c);
    lemma_pump_counts_prefix(ts, c, ts.len() as int);
    assert(ts.take(ts.len() as int) =~= ts);
    assert(ps.take(ps.len() as int) =~= ps);
}

// ---------------------------------------------------------------- cancel, retry, remove

/// What canceling asks of the caller.
pub enum CancelOutcome {
    /// the download runs: stop it (it then ends as canceled)
    StopRunning,
    /// a queued task was canceled; here is it now
    Canceled(Task),
    /// nothing to cancel
    Unchanged,
}

/// The tasks after canceling `id`: a running download is left to end on its
/// own; otherwise the first queued task with that id becomes canceled.
pub open spec fn cancel_tasks(s: StateView, id: u64) -> Seq<TaskView> {
    if s.running.contains(id) {
        s.tasks
    } else {
        match find_queued_from(s.tasks, id, 0) {
            Some(j) => s.tasks.update(j, with_status(s.tasks[j], TaskStatus::Canceled)),
            None => s.tasks,
        }
    }
}

/// Cancels a task: a running download is marked to be stopped (its id
/// leaves the running downloads), a queued task becomes canceled.
pub fn cancel_task(state: &mut DownloadState, id: u64) -> (r: CancelOutcome)
    requires
        old(state).wf(),
    ensures
        final(state).wf(),
        ids_below(final(state)@.tasks, final(state)@.next_id),
        final(state)@.tasks == cancel_tasks(old(state)@, id),
        final(state)@.running == old(state)@.running.remove(id),
        final(state)@.next_id == old(state)@.next_id,
        consistent(old(state)@) ==> consistent(final(state)@),
        r is StopRunning <==> old(state)@.running.contains(id),
        r is Unchanged <==> !old(state)@.running.contains(id) && find_queued_from(
            old(state)@.tasks,
            id,
            0,
        ) is None,
        r matches CancelOutcome::Canceled(t) ==> (find_queued_from(old(state)@.tasks, id, 0) matches Some(
            j,
        ) && t@ == with_status(old(state)@.tasks[j], TaskStatus::Canceled)),
{
    if state.running_contains(id) {
        state.running_remove(id);
        proof {
            if consistent(old(state)@) {
                lemma_consistent_cancel(old(state)@, id);
                assert(state@ == cancel_state(old(state)@, id));
            }
        }
        return CancelOutcome::StopRunning;
    }
    assert(old(state)@.running.remove(id) =~= old(state)@.running);
    let ghost ts = state@.tasks;
    let mut i: usize = 0;
    while i < state.tasks.len()
        invariant
            i <= state.tasks.len(),
            ts == state@.tasks,
            state.wf(),
            state@.running == old(state)@.running,
            state@.next_id == old(state)@.next_id,
            ts == old(state)@.tasks,
            !old(state)@.running.contains(id),
            find_queued_from(ts, id, 0) == find_queued_from(ts, id, i as int),
        decreases state.tasks.len() - i,
    {
        assert(ts[i as int] == state.tasks@[i as int]@);
        if state.tasks[i].id == id && state.tasks[i].status == TaskStatus::Queued {
            let ghost before = state.tasks@;
            state.tasks[i].status = TaskStatus::Canceled;
            proof {
                assert(state.tasks@ =~= before.update(i as int, state.tasks@[i as int]));
                state.lemma_set_field(before, i as int);
                lemma_status_change_keeps_ids(ts, state@.tasks, state@.next_id);
                assert(find_queued_from(ts, id, i as int) == Some(i as int));
                assert(state@.tasks =~= cancel_tasks(old(state)@, id));
                assert(state@.running =~= old(state)@.running.remove(id));
                if consistent(old(state)@) {
                    lemma_consistent_cancel(old(state)@, id);
                    assert(state@ == cancel_state(old(state)@, id));
                }
            }
            return CancelOutcome::Canceled(state.tasks[i].snapshot());
        }
        i = i + 1;
    }
    proof {
        if consistent(old(state)@) {
            lemma_consistent_cancel(old(state)@, id);
            assert(state@ == cancel_state(old(state)@, id));
        }
    }
    CancelOutcome::Unchanged
}

pub open spec fn retried_view(t: TaskView) -> TaskView {
    TaskView { status: TaskStatus::Queued, error: None, ..t }
}

pub open spec fn can_retry(s: TaskStatus) -> bool {
    s == TaskStatus::Failed || s == TaskStatus::Canceled
}

/// Queues a failed or canceled task again (its error cleared); gives it.
pub fn retry_task(state: &mut DownloadState, id: u64) -> (r: Result<Task, ApiError>)
    requires
        old(state).wf(),
    ensures
        final(state).wf(),
        ids_below(final(state)@.tasks, final(state)@.next_id),
        final(state)@.running == old(state)@.running,
        final(state)@.next_id == old(state)@.next_id,
        consistent(old(state)@) ==> consistent(final(state)@),
        match find_id(old(state)@.tasks, id) {
            None => r matches Err(e) && e@ == error_view("internal"@, "任务不存在"@)
                && final(state)@.tasks == old(state)@.tasks,
            Some(j) => if can_retry(old(state)@.tasks[j].status) {
                r matches Ok(t) && t@ == retried_view(old(state)@.tasks[j])
                    && final(state)@.tasks == old(state)@.tasks.update(
                    j,
                    retried_view(old(state)@.tasks[j]),
                )
            } else {
                r matches Err(e) && e@ == error_view("internal"@, "仅失败或已取消的任务可重试"@)
                    && final(state)@.tasks == old(state)@.tasks
            },
        },
{
    let ghost ts = state@.tasks;
    match state.find_task(id) {
        None => Err(ApiError::internal("任务不存在")),
        Some(j) => {
            proof {
                lemma_find_id_from(ts, id, 0);
            }
            let st = state.tasks[j].status;
            assert(st == ts[j as int].status);
            if !(st == TaskStatus::Failed || st == TaskStatus::Canceled) {
                return Err(ApiError::internal("仅失败或已取消的任务可重试"));
            }
            let ghost before = state.tasks@;
            state.tasks[j].status = TaskStatus::Queued;
            state.tasks[j].error = None;
            proof {
                assert(state.tasks@ =~= before.update(j as int, state.tasks@[j as int]));
                state.lemma_set_field(before, j as int);
                lemma_status_change_keeps_ids(ts, state@.tasks, state@.next_id);
                if consistent(old(state)@) {
                    lemma_consistent_update(old(state)@, state@, j as int, state@.tasks[j as int]);
                }
            }
            Ok(state.tasks[j].snapshot())
        },
    }
}

/// The tasks without those whose id is `id`.
pub open spec fn without_id(ts: Seq<TaskView>, id: u64) -> Seq<TaskView>
    decreases ts.len(),
{
    if ts.len() == 0 {
        seq![]
    } else if ts.last().id == id {
        without_id(ts.drop_last(), id)
    } else {
        without_id(ts.drop_last(), id).push(ts.last())
    }
}

proof fn lemma_without_id_bound(ts: Seq<TaskView>, id: u64, bound: nat)
    requires
        ids_below(ts, bound),
    ensures
        ids_below(without_id(ts, id), bound),
        forall|k: int| 0 <= k < without_id(ts, id).len() ==> (#[trigger] without_id(ts, id)[k]).id != id,
    decreases ts.len(),
{
    if ts.len() > 0 {
        let p = ts.drop_last();
        assert(ids_below(p, bound)) by {
            assert forall|k: int| 0 <= k < p.len() implies (#[trigger] p[k]).id < bound by {
                assert(p[k] == ts[k]);
            }
        }
        lemma_without_id_bound(p, id, bound);
        assert(ts.last() == ts[ts.len() - 1]);
    }
}

/// Tasks with id `id` can be removed: no download with that id runs.
pub open spec fn removable(s: StateView, id: u64) -> bool {
    !s.running.contains(id)
}

/// Removes the tasks with id `id`, unless its download runs.
pub fn remove_task(state: &mut DownloadState, id: u64) -> (r: Result<(), ApiError>)
    requires
        old(state).wf(),
    ensures
        final(state).wf(),
        ids_below(final(state)@.tasks, final(state)@.next_id),
        final(state)@.running == old(state)@.running,
        final(state)@.next_id == old(state)@.next_id,
        consistent(old(state)@) ==> consistent(final(state)@),
        !removable(old(state)@, id) ==> (r matches Err(e) && e@ == error_view(
            "internal"@,
            "任务进行中，请先取消"@,
        ) && final(state)@.tasks == old(state)@.tasks),
        removable(old(state)@, id) ==> r is Ok && final(state)@.tasks == without_id(
            old(state)@.tasks,
            id,
        ),
{
    if state.running_contains(id) {
        return Err(ApiError::internal("任务进行中，请先取消"));
    }
    let ghost ts = state@.tasks;
    let mut kept: Vec<Task> = Vec::new();
    let mut i: usize = 0;
    assert(ts.take(0) =~= Seq::<TaskView>::empty());
    while i < state.tasks.len()
        invariant
            i <= state.tasks.len(),
            ts == state@.tasks,
            task_views(kept@) == without_id(ts.take(i as int), id),
        decreases state.tasks.len() - i,
    {
        assert(ts.take(i + 1).drop_last() =~= ts.take(i as int));
        assert(ts.take(i + 1).last() == state.tasks@[i as int]@);
        if state.tasks[i].id != id {
            let snap = state.tasks[i].snapshot();
            let ghost before = kept@;
            kept.push(snap);
            assert(task_views(kept@) =~= task_views(before).push(snap@));
        }
        i = i + 1;
    }
    assert(ts.take(state.tasks.len() as int) =~= ts);
    state.tasks = kept;
    proof {
        lemma_without_id_bound(ts, id, state@.next_id);
        if consistent(old(state)@) {
            lemma_consistent_remove(old(state)@, state@, id);
        }
    }
    Ok(())
}

/// The queue after canceling `id`.
pub open spec fn cancel_state(s: StateView, id: u64) -> StateView {
    StateView { tasks: cancel_tasks(s, id), running: s.running.remove(id), next_id: s.next_id }
}

/// After canceling a task, nothing keeps it from being removed.
pub proof fn law_cancel_then_remove(s: StateView, id: u64)
    ensures
        removable(cancel_state(s, id), id),
{
}

// ---------------------------------------------------------------- restart

/// A task as it comes back after a restart: a download that was under way
/// is queued again.
pub open spec fn recovered_view(t: TaskView) -> TaskView {
    if is_active(t.status) {
        with_status(t, TaskStatus::Queued)
    } else {
        t
    }
}

/// The largest id among the tasks.
pub open spec fn max_id(ts: Seq<TaskView>) -> Option<u64>
    decreases ts.len(),
{
    if ts.len() == 0 {
        None
    } else {
        match max_id(ts.drop_last()) {
            Some(m) => Some(if ts.last().id > m { ts.last().id } else { m }),
            None => Some(ts.last().id),
        }
    }
}

/// The id after the largest one, 1 for no task.
pub open spec fn id_after(ts: Seq<TaskView>) -> nat {
    match max_id(ts) {
        Some(m) => (m + 1) as nat,
        None => 1,
    }
}

proof fn lemma_max_id_bound(ts: Seq<TaskView>)
    ensures
        ids_below(ts, id_after(ts)),
    decreases ts.len(),
{
    if ts.len() > 0 {
        let p = ts.drop_last();
        lemma_max_id_bound(p);
        assert forall|k: int| 0 <= k < ts.len() implies (#[trigger] ts[k]).id < id_after(ts) by {
            if k < ts.len() - 1 {
                assert(p[k] == ts[k]);
            }
        }
    }
}

/// Takes over the tasks saved before a restart: downloads that were under
/// way are queued again, and new ids continue after the largest one.
pub fn load_persisted(state: &mut DownloadState, tasks: Vec<Task>)
    requires
        old(state).wf(),
        forall|k: int| 0 <= k < tasks@.len() ==> (#[trigger] tasks@[k]).id < u64::MAX,
    ensures
        final(state).wf(),
        ids_below(final(state)@.tasks, final(state)@.next_id),
        final(state)@.tasks == task_views(tasks@).map_values(|t: TaskView| recovered_view(t)),
        final(state)@.running == old(state)@.running,
        final(state)@.next_id == id_after(task_views(tasks@)),
        distinct_ids(task_views(tasks@)) && old(state)@.running.is_empty() ==> consistent(final(state)@),
{
    let ghost orig = task_views(tasks@);
    let mut tasks = tasks;
    let mut max: Option<u64> = None;
    let mut i: usize = 0;
    assert(orig.take(0) =~= Seq::<TaskView>::empty());
    while i < tasks.len()
        invariant
            i <= tasks.len(),
            orig.len() == tasks.len(),
            forall|k: int| 0 <= k < orig.len() ==> (#[trigger] orig[k]).id < u64::MAX,
            forall|k: int| 0 <= k < i ==> tasks@[k]@ == recovered_view(#[trigger] orig[k]),
            forall|k: int| i <= k < tasks.len() ==> tasks@[k]@ == #[trigger] orig[k],
            max == max_id(orig.take(i as int)),
            max matches Some(m) ==> m < u64::MAX,
        decreases tasks.len() - i,
    {
        assert(orig.take(i + 1).drop_last() =~= orig.take(i as int));
        assert(orig.take(i + 1).last() == orig[i as int]);
        let id = tasks[i].id;
        assert(id == orig[i as int].id);
        max = match max {
            Some(m) => Some(if id > m { id } else { m }),
            None => Some(id),
        };
        let st = tasks[i].status;
        if st == TaskStatus::Downloading || st == TaskStatus::Merging {
            let ghost before = tasks@;
            tasks[i].status = TaskStatus::Queued;
            assert(tasks@ =~= before.update(i as int, tasks@[i as int]));
        }
        i = i + 1;
    }
    assert(orig.take(tasks.len() as int) =~= orig);
    let next = match max {
        Some(m) => m + 1,
        None => 1,
    };
    proof {
        lemma_max_id_bound(orig);
    }
    state.tasks = tasks;
    state.next_id = next;
    assert(state@.tasks =~= orig.map_values(|t: TaskView| recovered_view(t)));
    assert(ids_below(state@.tasks, state@.next_id)) by {
        assert forall|k: int| 0 <= k < state@.tasks.len() implies (#[trigger] state@.tasks[k]).id
            < state@.next_id by {
            assert(state@.tasks[k].id == orig[k].id);
        }
    }
    assert(distinct_ids(orig) ==> distinct_ids(state@.tasks)) by {
        if distinct_ids(orig) {
            assert forall|a: int, b: int| 0 <= a < b < state@.tasks.len() implies (#[trigger] state@.tasks[a]).id
                != (#[trigger] state@.tasks[b]).id by {
                assert(state@.tasks[a].id == orig[a].id);
                assert(state@.tasks[b].id == orig[b].id);
            }
        }
    }
}

/// After a restart no download counts as under way.
pub proof fn law_restart_queues_unfinished(ts: Seq<TaskView>)
    ensures
        count_active(ts.map_values(|t: TaskView| recovered_view(t))) == 0,
        count_queued(ts.map_values(|t: TaskView| recovered_view(t))) == count_queued(ts)
            + count_active(ts),
    decreases ts.len(),
{
    let rs = ts.map_values(|t: TaskView| recovered_view(t));
    if ts.len() > 0 {
        law_restart_queues_unfinished(ts.drop_last());
        assert(rs.drop_last() =~= ts.drop_last().map_values(|t: TaskView| recovered_view(t)));
    }
}

// ---------------------------------------------------------------- progress and completion

/// What a progress report of yt-dlp says.
#[derive(Clone, Copy, PartialEq, Eq, Structural, Debug)]
pub enum ProgressEvent {
    /// `downloading`: a stream is being fetched
    Downloading,
    /// `finished`: a stream is complete; merging or converting may follow
    Finished,
    /// any other status
    Other,
}

pub open spec fn progress_view(t: TaskView, ev: ProgressEvent) -> TaskView {
    match ev {
        ProgressEvent::Downloading => with_status(t, TaskStatus::Downloading),
        ProgressEvent::Finished => with_status(t, TaskStatus::Merging),
        ProgressEvent::Other => t,
    }
}

proof fn lemma_status_change_keeps_ids(old_ts: Seq<TaskView>, new_ts: Seq<TaskView>, bound: nat)
    requires
        ids_below(old_ts, bound),
        old_ts.len() == new_ts.len(),
        forall|k: int| 0 <= k < old_ts.len() ==> (#[trigger] new_ts[k]).id == old_ts[k].id,
    ensures
        ids_below(new_ts, bound),
{
    assert forall|k: int| 0 <= k < new_ts.len() implies (#[trigger] new_ts[k]).id < bound by {
        assert(old_ts[k].id < bound);
    }
}

/// Applies a progress report to the first task with id `id`; gives the task
/// as it is now, or `None` (the report loop then ends) if there is none.
pub fn apply_progress(state: &mut DownloadState, id: u64, ev: ProgressEvent) -> (r: Option<Task>)
    requires
        old(state).wf(),
    ensures
        final(state).wf(),
        ids_below(final(state)@.tasks, final(state)@.next_id),
        final(state)@.running == old(state)@.running,
        final(state)@.next_id == old(state)@.next_id,
        consistent(old(state)@) ==> consistent(final(state)@),
        match find_id(old(state)@.tasks, id) {
            None => r is None && final(state)@.tasks == old(state)@.tasks,
            Some(j) => {
                &&& final(state)@.tasks == old(state)@.tasks.update(
                    j,
                    progress_view(old(state)@.tasks[j], ev),
                )
                &&& r matches Some(t) && t@ == progress_view(old(state)@.tasks[j], ev)
            },
        },
{
    let ghost ts = state@.tasks;
    match state.find_task(id) {
        None => {
            proof {
                if consistent(old(state)@) {
                    lemma_consistent_shrink(old(state)@, state@);
                }
            }
            None
        },
        Some(j) => {
            let ghost before = state.tasks@;
            match ev {
                ProgressEvent::Downloading => {
                    state.tasks[j].status = TaskStatus::Downloading;
                },
                ProgressEvent::Finished => {
                    state.tasks[j].status = TaskStatus::Merging;
                },
                ProgressEvent::Other => {},
            }
            proof {
                assert(state.tasks@ =~= before.update(j as int, state.tasks@[j as int]));
                state.lemma_set_field(before, j as int);
                lemma_status_change_keeps_ids(ts, state@.tasks, state@.next_id);
                lemma_find_id_from(ts, id, 0);
                if consistent(old(state)@) {
                    lemma_consistent_update(old(state)@, state@, j as int, state@.tasks[j as int]);
                }
            }
            Some(state.tasks[j].snapshot())
        },
    }
}

/// How a download ended: `Ok(Some(path))` done (the path may be empty),
/// `Ok(None)` canceled, `Err(e)` failed.
pub open spec fn outcome_view(r: Result<Option<String>, ApiError>) -> Result<Option<Seq<char>>, ErrorView> {
    match r {
        Ok(Some(p)) => Ok(Some(p@)),
        Ok(None) => Ok(None),
        Err(e) => Err(e@),
    }
}

pub open spec fn finished_view(t: TaskView, res: Result<Option<Seq<char>>, ErrorView>) -> TaskView {
    match res {
        Ok(Some(p)) => TaskView {
            status: TaskStatus::Done,
            filepath: if p.len() > 0 { Some(p) } else { t.filepath },
            ..t
        },
        Ok(None) => with_status(t, TaskStatus::Canceled),
        Err(e) => TaskView { status: TaskStatus::Failed, error: Some(e.message), ..t },
    }
}

/// Records how the download of `id` ended: its id leaves the running
/// downloads, and the first task with that id becomes done (with the file's
/// path, if one was reported), canceled or failed (with the error's
/// message). Gives that task, if there is one.
pub fn finish_download(state: &mut DownloadState, id: u64, result: Result<Option<String>, ApiError>) -> (r:
    Option<Task>)
    requires
        old(state).wf(),
    ensures
        final(state).wf(),
        ids_below(final(state)@.tasks, final(state)@.next_id),
        final(state)@.running == old(state)@.running.remove(id),
        final(state)@.next_id == old(state)@.next_id,
        consistent(old(state)@) ==> consistent(final(state)@),
        final(state)@ == finish_state(old(state)@, id, outcome_view(result)),
        match find_id(old(state)@.tasks, id) {
            None => r is None && final(state)@.tasks == old(state)@.tasks,
            Some(j) => {
                &&& final(state)@.tasks == old(state)@.tasks.update(
                    j,
                    finished_view(old(state)@.tasks[j], outcome_view(result)),
                )
                &&& r matches Some(t) && t@ == finished_view(old(state)@.tasks[j], outcome_view(result))
            },
        },
{
    state.running_remove(id);
    let ghost ts = state@.tasks;
    match state.find_task(id) {
        None => {
            proof {
                if consistent(old(state)@) {
                    lemma_consistent_shrink(old(state)@, state@);
                }
            }
            None
        },
        Some(j) => {
            let ghost before = state.tasks@;
            match result {
                Ok(Some(path)) => {
                    state.tasks[j].status = TaskStatus::Done;
                    if !path.as_str().is_empty() {
                        state.tasks[j].filepath = Some(path);
                    }
                },
                Ok(None) => {
                    state.tasks[j].status = TaskStatus::Canceled;
                },
                Err(e) => {
                    state.tasks[j].status = TaskStatus::Failed;
                    state.tasks[j].error = Some(e.message);
                },
            }
            proof {
                assert(state.tasks@ =~= before.update(j as int, state.tasks@[j as int]));
                state.lemma_set_field(before, j as int);
                lemma_status_change_keeps_ids(ts, state@.tasks, state@.next_id);
                lemma_find_id_from(ts, id, 0);
                if consistent(old(state)@) {
                    lemma_consistent_update(old(state)@, state@, j as int, state@.tasks[j as int]);
                }
            }
            Some(state.tasks[j].snapshot())
        },
    }
}

pub open spec fn failed_view(t: TaskView, message: Seq<char>) -> TaskView {
    TaskView { status: TaskStatus::Failed, error: Some(message), ..t }
}

/// Marks the download of `id` as failed with `message` before it could
/// start: its id leaves the running downloads, the first task with that id
/// becomes failed. Gives that task, if there is one.
pub fn fail_task(state: &mut DownloadState, id: u64, message: &str) -> (r: Option<Task>)
    requires
        old(state).wf(),
    ensures
        final(state).wf(),
        ids_below(final(state)@.tasks, final(state)@.next_id),
        final(state)@.running == old(state)@.running.remove(id),
        final(state)@.next_id == old(state)@.next_id,
        consistent(old(state)@) ==> consistent(final(state)@),
        match find_id(old(state)@.tasks, id) {
            None => r is None && final(state)@.tasks == old(state)@.tasks,
            Some(j) => {
                &&& final(state)@.tasks == old(state)@.tasks.update(j, failed_view(old(state)@.tasks[j], message@))
                &&& r matches Some(t) && t@ == failed_view(old(state)@.tasks[j], message@)
            },
        },
{
    state.running_remove(id);
    let ghost ts = state@.tasks;
    match state.find_task(id) {
        None => {
            proof {
                if consistent(old(state)@) {
                    lemma_consistent_shrink(old(state)@, state@);
                }
            }
            None
        },
        Some(j) => {
            let ghost before = state.tasks@;
            state.tasks[j].status = TaskStatus::Failed;
            state.tasks[j].error = Some(String::from_str(message));
            proof {
                assert(state.tasks@ =~= before.update(j as int, state.tasks@[j as int]));
                state.lemma_set_field(before, j as int);
                lemma_status_change_keeps_ids(ts, state@.tasks, state@.next_id);
                lemma_find_id_from(ts, id, 0);
                if consistent(old(state)@) {
                    lemma_consistent_update(old(state)@, state@, j as int, state@.tasks[j as int]);
                }
            }
            Some(state.tasks[j].snapshot())
        },
    }
}

/// A task after a run of progress reports, applied in order.
pub open spec fn progress_run(t: TaskView, evs: Seq<ProgressEvent>) -> TaskView
    decreases evs.len(),
{
    if evs.len() == 0 {
        t
    } else {
        progress_view(progress_run(t, evs.drop_last()), evs.last())
    }
}

proof fn lemma_progress_run(t: TaskView, evs: Seq<ProgressEvent>)
    requires
        is_active(t.status),
    ensures
        is_active(progress_run(t, evs).status),
        progress_run(t, evs).id == t.id,
    decreases evs.len(),
{
    if evs.len() > 0 {
        lemma_progress_run(t, evs.drop_last());
    }
}

/// Over a whole download: while progress reports come in, a task whose
/// download is under way stays downloading or merging, under its id; once
/// the download ends, it is done, canceled or failed.
pub proof fn law_download_run(t: TaskView, evs: Seq<ProgressEvent>, res: Result<Option<Seq<char>>, ErrorView>)
    requires
        is_active(t.status),
    ensures
        forall|k: int|
            0 <= k <= evs.len() ==> is_active(#[trigger] progress_run(t, evs.take(k)).status)
                && progress_run(t, evs.take(k)).id == t.id,
        finished_view(progress_run(t, evs), res).status == TaskStatus::Done || finished_view(
            progress_run(t, evs),
            res,
        ).status == TaskStatus::Canceled || finished_view(progress_run(t, evs), res).status
            == TaskStatus::Failed,
{
    assert forall|k: int| 0 <= k <= evs.len() implies is_active(
        #[trigger] progress_run(t, evs.take(k)).status,
    ) && progress_run(t, evs.take(k)).id == t.id by {
        lemma_progress_run(t, evs.take(k));
    }
}

/// The queue after the download of `id` ended with `res`.
pub open spec fn finish_state(s: StateView, id: u64, res: Result<Option<Seq<char>>, ErrorView>) -> StateView {
    StateView {
        tasks: match find_id(s.tasks, id) {
            None => s.tasks,
            Some(j) => s.tasks.update(j, finished_view(s.tasks[j], res)),
        },
        running: s.running.remove(id),
        next_id: s.next_id,
    }
}

/// `j` is the position of the first task with id `id`.
pub open spec fn first_with_id(ts: Seq<TaskView>, id: u64, j: int) -> bool {
    0 <= j < ts.len() && ts[j].id == id && forall|k: int| 0 <= k < j ==> ts[k].id != id
}

/// How the end of a download shows in the queue: the first task with its
/// id becomes done (taking the reported path unless it is empty), canceled
/// when the download was stopped on request (`Ok(None)`), or failed with the
/// error's message; the task keeps its id, link, title, thumbnail and
/// format, every other task stays as it was, and the download no longer
/// runs.
pub proof fn law_finish_outcome(s: StateView, id: u64, res: Result<Option<Seq<char>>, ErrorView>)
    ensures
        finish_state(s, id, res).tasks.len() == s.tasks.len(),
        !finish_state(s, id, res).running.contains(id),
        forall|j: int|
            0 <= j < s.tasks.len() && !first_with_id(s.tasks, id, j) ==> #[trigger] finish_state(
                s,
                id,
                res,
            ).tasks[j] == s.tasks[j],
        forall|j: int|
            #[trigger] first_with_id(s.tasks, id, j) ==> {
                let t = s.tasks[j];
                let u = finish_state(s, id, res).tasks[j];
                &&& u.id == t.id && u.url == t.url && u.title == t.title && u.thumbnail == t.thumbnail
                    && u.format == t.format
                &&& res == Ok::<Option<Seq<char>>, ErrorView>(None) ==> u.status == TaskStatus::Canceled
                    && u.error == t.error && u.filepath == t.filepath
                &&& res matches Ok(Some(p)) ==> u.status == TaskStatus::Done && u.error == t.error && u.filepath
                    == (if p.len() > 0 { Some(p) } else { t.filepath })
                &&& res matches Err(e) ==> u.status == TaskStatus::Failed && u.error == Some(e.message)
                    && u.filepath == t.filepath
            },
{
    lemma_find_id_from(s.tasks, id, 0);
    assert forall|j: int| 0 <= j < s.tasks.len() && !first_with_id(s.tasks, id, j) implies #[trigger] finish_state(
        s,
        id,
        res,
    ).tasks[j] == s.tasks[j] by {
        if let Some(f) = find_id(s.tasks, id) {
            assert(f != j) by {
                if f == j {
                    assert(first_with_id(s.tasks, id, j));
                }
            }
        }
    }
    assert forall|j: int| #[trigger] first_with_id(s.tasks, id, j) implies find_id(s.tasks, id) == Some(j) by {
        match find_id(s.tasks, id) {
            Some(f) => {
                if f < j {
                    assert(s.tasks[f].id != id);
                } else if f > j {
                    assert(s.tasks[j].id != id);
                }
            },
            None => {
                assert(s.tasks[j].id != id);
            },
        }
    }
}

/// What a progress report does to a task: `downloading` makes it
/// downloading, `finished` makes it merging, any other report leaves it as
/// it is; nothing else of the task changes.
pub proof fn law_progress_report(t: TaskView, ev: ProgressEvent)
    ensures
        progress_view(t, ev) == (TaskView { status: progress_view(t, ev).status, ..t }),
        ev == ProgressEvent::Downloading ==> progress_view(t, ev).status == TaskStatus::Downloading,
        ev == ProgressEvent::Finished ==> progress_view(t, ev).status == TaskStatus::Merging,
        ev == ProgressEvent::Other ==> progress_view(t, ev).status == t.status,
{
}

/// After a download ended, nothing keeps its task from being removed.
pub proof fn law_finished_is_removable(s: StateView, id: u64, res: Result<Option<Seq<char>>, ErrorView>)
    ensures
        removable(finish_state(s, id, res), id),
{
}


// ---------------------------------------------------------------- consistency

/// No two tasks share an id.
pub open spec fn distinct_ids(ts: Seq<TaskView>) -> bool {
    forall|i: int, j: int| 0 <= i < j < ts.len() ==> (#[trigger] ts[i]).id != (#[trigger] ts[j]).id
}

/// Every running download belongs to a task whose download is under way
/// (downloading or merging).
pub open spec fn running_active(s: StateView) -> bool {
    forall|x: u64|
        #[trigger] s.running.contains(x) ==> exists|k: int|
            #![trigger s.tasks[k]]
            0 <= k < s.tasks.len() && s.tasks[k].id == x && is_active(s.tasks[k].status)
}

/// The queue is consistent: task ids are distinct, and every running
/// download belongs to a task that is downloading or merging.
pub open spec fn consistent(s: StateView) -> bool {
    distinct_ids(s.tasks) && running_active(s)
}

/// One task changed in place, its id kept; a download under way that is
/// still running stays under way.
proof fn lemma_consistent_update(s: StateView, t2: StateView, j: int, t: TaskView)
    requires
        consistent(s),
        0 <= j < s.tasks.len(),
        t.id == s.tasks[j].id,
        t2.tasks == s.tasks.update(j, t),
        t2.running.subset_of(s.running),
        is_active(s.tasks[j].status) ==> (is_active(t.status) || !t2.running.contains(t.id)),
    ensures
        consistent(t2),
{
    assert forall|a: int, b: int| 0 <= a < b < t2.tasks.len() implies (#[trigger] t2.tasks[a]).id
        != (#[trigger] t2.tasks[b]).id by {
        assert(t2.tasks[a].id == s.tasks[a].id);
        assert(t2.tasks[b].id == s.tasks[b].id);
        assert(s.tasks[a].id != s.tasks[b].id);
    }
    assert forall|x: u64| #[trigger] t2.running.contains(x) implies exists|k: int|
        #![trigger t2.tasks[k]]
        0 <= k < t2.tasks.len() && t2.tasks[k].id == x && is_active(t2.tasks[k].status) by {
        assert(s.running.contains(x));
        let k = choose|k: int|
            #![trigger s.tasks[k]]
            0 <= k < s.tasks.len() && s.tasks[k].id == x && is_active(s.tasks[k].status);
        if k == j {
            assert(t2.tasks[j] == t);
        } else {
            assert(t2.tasks[k] == s.tasks[k]);
        }
    }
}

/// Fewer running downloads, the tasks unchanged.
proof fn lemma_consistent_shrink(s: StateView, t2: StateView)
    requires
        consistent(s),
        t2.tasks == s.tasks,
        t2.running.subset_of(s.running),
    ensures
        consistent(t2),
{
    assert forall|x: u64| #[trigger] t2.running.contains(x) implies exists|k: int|
        #![trigger t2.tasks[k]]
        0 <= k < t2.tasks.len() && t2.tasks[k].id == x && is_active(t2.tasks[k].status) by {
        assert(s.running.contains(x));
        let k = choose|k: int|
            #![trigger s.tasks[k]]
            0 <= k < s.tasks.len() && s.tasks[k].id == x && is_active(s.tasks[k].status);
        assert(0 <= k < t2.tasks.len() && t2.tasks[k].id == x && is_active(t2.tasks[k].status));
    }
}

/// A task with a new id larger than all others added at the end.
proof fn lemma_consistent_push(s: StateView, t2: StateView, t: TaskView)
    requires
        consistent(s),
        ids_below(s.tasks, t.id as nat),
        t2.tasks == s.tasks.push(t),
        t2.running == s.running,
    ensures
        consistent(t2),
{
    assert forall|a: int, b: int| 0 <= a < b < t2.tasks.len() implies (#[trigger] t2.tasks[a]).id
        != (#[trigger] t2.tasks[b]).id by {
        assert(t2.tasks[a] == s.tasks[a]);
        if b < s.tasks.len() {
            assert(t2.tasks[b] == s.tasks[b]);
            assert(s.tasks[a].id != s.tasks[b].id);
        } else {
            assert(s.tasks[a].id < t.id);
        }
    }
    assert forall|x: u64| #[trigger] t2.running.contains(x) implies exists|k: int|
        #![trigger t2.tasks[k]]
        0 <= k < t2.tasks.len() && t2.tasks[k].id == x && is_active(t2.tasks[k].status) by {
        let k = choose|k: int|
            #![trigger s.tasks[k]]
            0 <= k < s.tasks.len() && s.tasks[k].id == x && is_active(s.tasks[k].status);
        assert(t2.tasks[k] == s.tasks[k]);
    }
}

/// The scheduler keeps the queue consistent.
proof fn lemma_consistent_pump(s: StateView, c: nat)
    requires
        consistent(s),
    ensures
        consistent(
            StateView {
                tasks: pump_tasks(s.tasks, c),
                running: s.running.union(pump_ids(s.tasks, c, s.tasks.len() as int)),
                next_id: s.next_id,
            },
        ),
{
    let ts = s.tasks;
    let ps = pump_tasks(ts, c);
    let ids = pump_ids(ts, c, ts.len() as int);
    let t2 = StateView { tasks: ps, running: s.running.union(ids), next_id: s.next_id };
    assert forall|a: int, b: int| 0 <= a < b < ps.len() implies (#[trigger] ps[a]).id
        != (#[trigger] ps[b]).id by {
        assert(ps[a].id == ts[a].id);
        assert(ps[b].id == ts[b].id);
        assert(ts[a].id != ts[b].id);
    }
    assert forall|x: u64| #[trigger] t2.running.contains(x) implies exists|k: int|
        #![trigger t2.tasks[k]]
        0 <= k < t2.tasks.len() && t2.tasks[k].id == x && is_active(t2.tasks[k].status) by {
        if s.running.contains(x) {
            let k = choose|k: int|
                #![trigger ts[k]]
                0 <= k < ts.len() && ts[k].id == x && is_active(ts[k].status);
            assert(!pump_starts(ts, c, k));
            assert(ps[k] == ts[k]);
            assert(0 <= k < t2.tasks.len() && t2.tasks[k].id == x && is_active(t2.tasks[k].status));
        } else {
            assert(ids.contains(x));
            let j = choose|j: int| 0 <= j < ts.len() && pump_starts(ts, c, j) && #[trigger] ts[j].id == x;
            assert(ps[j] == started_view(ts[j]));
            assert(0 <= j < t2.tasks.len() && t2.tasks[j].id == x && is_active(t2.tasks[j].status));
        }
    }
}

/// Every task left after removing by id comes from the tasks.
proof fn lemma_without_id_from(ts: Seq<TaskView>, id: u64)
    ensures
        forall|m: int|
            0 <= m < without_id(ts, id).len() ==> exists|k: int|
                #![trigger ts[k]]
                0 <= k < ts.len() && #[trigger] without_id(ts, id)[m] == ts[k],
    decreases ts.len(),
{
    if ts.len() > 0 {
        let p = ts.drop_last();
        let wp = without_id(p, id);
        let w = without_id(ts, id);
        lemma_without_id_from(p, id);
        assert forall|m: int| 0 <= m < w.len() implies exists|k: int|
            #![trigger ts[k]]
            0 <= k < ts.len() && #[trigger] w[m] == ts[k] by {
            if m < wp.len() {
                assert(w[m] == wp[m]);
                let k = choose|k: int| #![trigger p[k]] 0 <= k < p.len() && wp[m] == p[k];
                assert(p[k] == ts[k]);
            } else {
                assert(w[m] == ts[ts.len() - 1]);
            }
        }
    }
}

/// Removing by id keeps every task with another id.
proof fn lemma_without_id_keeps(ts: Seq<TaskView>, id: u64)
    ensures
        forall|k: int|
            0 <= k < ts.len() && (#[trigger] ts[k]).id != id ==> exists|m: int|
                0 <= m < without_id(ts, id).len() && #[trigger] without_id(ts, id)[m] == ts[k],
    decreases ts.len(),
{
    if ts.len() > 0 {
        let p = ts.drop_last();
        let wp = without_id(p, id);
        let w = without_id(ts, id);
        lemma_without_id_keeps(p, id);
        assert forall|k: int| 0 <= k < ts.len() && (#[trigger] ts[k]).id != id implies exists|m: int|
            0 <= m < w.len() && #[trigger] w[m] == ts[k] by {
            if k < ts.len() - 1 {
                assert(p[k] == ts[k]);
                let m = choose|m: int| 0 <= m < wp.len() && #[trigger] wp[m] == p[k];
                assert(w[m] == wp[m]);
            } else {
                assert(w[wp.len() as int] == ts[k]);
            }
        }
    }
}

/// Removing by id keeps distinct ids distinct.
proof fn lemma_without_id_distinct(ts: Seq<TaskView>, id: u64)
    requires
        distinct_ids(ts),
    ensures
        distinct_ids(without_id(ts, id)),
    decreases ts.len(),
{
    if ts.len() > 0 {
        let p = ts.drop_last();
        let wp = without_id(p, id);
        let w = without_id(ts, id);
        assert forall|a: int, b: int| 0 <= a < b < p.len() implies (#[trigger] p[a]).id
            != (#[trigger] p[b]).id by {
            assert(p[a] == ts[a]);
            assert(p[b] == ts[b]);
        }
        lemma_without_id_distinct(p, id);
        lemma_without_id_from(p, id);
        assert forall|a: int, b: int| 0 <= a < b < w.len() implies (#[trigger] w[a]).id
            != (#[trigger] w[b]).id by {
            if b < wp.len() {
                assert(w[a] == wp[a]);
                assert(w[b] == wp[b]);
            } else {
                assert(w[a] == wp[a]);
                assert(w[b] == ts[ts.len() - 1]);
                let k = choose|k: int| #![trigger p[k]] 0 <= k < p.len() && wp[a] == p[k];
                assert(p[k] == ts[k]);
                assert(ts[k].id != ts[ts.len() - 1].id);
            }
        }
    }
}

/// Removing tasks whose id does not run keeps the queue consistent.
proof fn lemma_consistent_remove(s: StateView, t2: StateView, id: u64)
    requires
        consistent(s),
        !s.running.contains(id),
        t2.tasks == without_id(s.tasks, id),
        t2.running == s.running,
    ensures
        consistent(t2),
{
    lemma_without_id_distinct(s.tasks, id);
    lemma_without_id_keeps(s.tasks, id);
    assert forall|x: u64| #[trigger] t2.running.contains(x) implies exists|k: int|
        #![trigger t2.tasks[k]]
        0 <= k < t2.tasks.len() && t2.tasks[k].id == x && is_active(t2.tasks[k].status) by {
        let k = choose|k: int|
            #![trigger s.tasks[k]]
            0 <= k < s.tasks.len() && s.tasks[k].id == x && is_active(s.tasks[k].status);
        assert(s.tasks[k].id != id);
        let m = choose|m: int| 0 <= m < t2.tasks.len() && #[trigger] t2.tasks[m] == s.tasks[k];
        assert(t2.tasks[m] == s.tasks[k]);
    }
}

/// Every operation keeps the queue consistent: ids stay distinct and a
/// running download always belongs to a task under way. Shown here for the
/// scheduler and for canceling; the operations' own contracts state it for
/// each of them.
pub proof fn law_pump_and_cancel_keep_consistency(s: StateView, c: nat, id: u64)
    requires
        consistent(s),
    ensures
        consistent(
            StateView {
                tasks: pump_tasks(s.tasks, c),
                running: s.running.union(pump_ids(s.tasks, c, s.tasks.len() as int)),
                next_id: s.next_id,
            },
        ),
        consistent(cancel_state(s, id)),
{
    lemma_consistent_pump(s, c);
    lemma_consistent_cancel(s, id);
}

proof fn lemma_consistent_cancel(s: StateView, id: u64)
    requires
        consistent(s),
    ensures
        consistent(cancel_state(s, id)),
{
    let t2 = cancel_state(s, id);
    if s.running.contains(id) {
        assert forall|x: u64| #[trigger] t2.running.contains(x) implies exists|k: int|
            #![trigger t2.tasks[k]]
            0 <= k < t2.tasks.len() && t2.tasks[k].id == x && is_active(t2.tasks[k].status) by {
            assert(s.running.contains(x));
            let k = choose|k: int|
                #![trigger s.tasks[k]]
                0 <= k < s.tasks.len() && s.tasks[k].id == x && is_active(s.tasks[k].status);
            assert(t2.tasks == s.tasks);
            assert(0 <= k < t2.tasks.len() && t2.tasks[k].id == x && is_active(t2.tasks[k].status));
        }
    } else {
        lemma_find_queued_from(s.tasks, id, 0);
        match find_queued_from(s.tasks, id, 0) {
            Some(j) => {
                lemma_consistent_update(s, t2, j, with_status(s.tasks[j], TaskStatus::Canceled));
            },
            None => {
                assert(t2.running =~= s.running);
            },
        }
    }
}

} // verus!
