//! The download queue: every task ever submitted, in submission order, and
//! the decisions of the single worker that runs them one at a time.
//!
//! The worker's outside work (waiting for submissions, running the download
//! tool, reading its output) happens elsewhere; each time it has something to
//! report it calls one of the steps below, which move the table on.
use vstd::prelude::*;

use crate::parser::{lemma_readings_have_denominator, line_fields, opt_view, Fraction};
use crate::text::{chars_of, is_space, string_of, trim_chars, trimmed};

verus! {

/// Where a task stands.
#[derive(Clone, Debug, PartialEq, Eq)]
pub enum DownloadStatus {
    Queued,
    Downloading,
    Completed,
    Failed(String),
}

pub enum StatusModel {
    Queued,
    Downloading,
    Completed,
    Failed(Seq<char>),
}

impl View for DownloadStatus {
    type V = StatusModel;

    open spec fn view(&self) -> StatusModel {
        match self {
            DownloadStatus::Queued => StatusModel::Queued,
            DownloadStatus::Downloading => StatusModel::Downloading,
            DownloadStatus::Completed => StatusModel::Completed,
            DownloadStatus::Failed(m) => StatusModel::Failed(m@),
        }
    }
}

/// How far along its life a task is: queued 0, downloading 1, finished 2.
pub open spec fn rank(s: StatusModel) -> nat {
    match s {
        StatusModel::Queued => 0,
        StatusModel::Downloading => 1,
        _ => 2,
    }
}

/// One submitted download and what is known of it so far.
#[derive(Clone, Debug)]
pub struct DownloadTask {
    pub video_id: String,
    pub video_url: String,
    pub title: String,
    pub output_path: String,
    pub status: DownloadStatus,
    pub progress: Fraction,
    pub speed: Option<String>,
    pub eta: Option<String>,
}

pub struct TaskModel {
    pub video_id: Seq<char>,
    pub video_url: Seq<char>,
    pub title: Seq<char>,
    pub output_path: Seq<char>,
    pub status: StatusModel,
    pub progress: Fraction,
    pub speed: Option<Seq<char>>,
    pub eta: Option<Seq<char>>,
}

impl View for DownloadTask {
    type V = TaskModel;

    open spec fn view(&self) -> TaskModel {
        TaskModel {
            video_id: self.video_id@,
            video_url: self.video_url@,
            title: self.title@,
            output_path: self.output_path@,
            status: self.status@,
            progress: self.progress,
            speed: opt_view(self.speed),
            eta: opt_view(self.eta),
        }
    }
}

/// How a run of the download tool ended.
pub enum TaskOutcome {
    /// The tool exited with success.
    Succeeded,
    /// The run failed; the text says why (what the tool wrote to its error
    /// stream, or why it could not be started at all).
    Failed(String),
}

pub open spec fn generic_failure() -> Seq<char> {
    "the download tool failed"@
}

/// The reason shown for a failed task: the error text without the white space
/// round it, or a fixed message when nothing is left of it.
#[verifier::opaque]
pub open spec fn failure_reason(text: Seq<char>) -> Seq<char> {
    if trimmed(text).len() == 0 {
        generic_failure()
    } else {
        trimmed(text)
    }
}

/// What the queue holds: the tasks in submission order; how many of them
/// the worker has begun (always the oldest ones); and which one it is
/// running, if any.
pub struct QueueModel {
    pub tasks: Seq<TaskModel>,
    pub started: nat,
    pub active: Option<nat>,
}

impl QueueModel {
    /// The tasks begun are exactly the first `started`; all of them but the
    /// active one have finished; a waiting task has no progress, rate or time
    /// left yet; progress stays within the whole, and a completed task has
    /// its whole progress.
    pub open spec fn wf(self) -> bool {
        &&& self.started <= self.tasks.len()
        &&& forall|i: int|
            0 <= i < self.tasks.len() ==> ((#[trigger] self.tasks[i]).status is Queued <==> i
                >= self.started)
        &&& match self.active {
            Some(a) => a + 1 == self.started && self.tasks[a as int].status is Downloading,
            None => true,
        }
        &&& forall|i: int|
            0 <= i < self.started && self.active != Some(i as nat) ==> rank(
                (#[trigger] self.tasks[i]).status,
            ) == 2
        &&& forall|i: int|
            0 <= i < self.tasks.len() && (#[trigger] self.tasks[i]).status is Completed
                ==> self.tasks[i].progress == Fraction::spec_one()
        &&& forall|i: int|
            0 <= i < self.tasks.len() && (#[trigger] self.tasks[i]).status is Queued
                ==> self.tasks[i].progress == Fraction::spec_zero() && self.tasks[i].speed is None
                && self.tasks[i].eta is None
        &&& forall|i: int|
            0 <= i < self.tasks.len() ==> (#[trigger] self.tasks[i]).progress.at_most(
                Fraction::spec_one(),
            ) && self.tasks[i].progress.denom > 0
    }

    /// The task that the worker takes next: the oldest that has not begun,
    /// provided none is running.
    pub open spec fn next_to_start(self) -> Option<nat> {
        if self.active is None && self.started < self.tasks.len() {
            Some(self.started)
        } else {
            None
        }
    }

    /// After the worker has begun the next task, if there was one to begin.
    pub open spec fn after_start(self) -> QueueModel {
        match self.next_to_start() {
            Some(i) => QueueModel {
                tasks: self.tasks.update(
                    i as int,
                    TaskModel { status: StatusModel::Downloading, ..self.tasks[i as int] },
                ),
                started: self.started + 1,
                active: Some(i),
            },
            None => self,
        }
    }

    /// After the running task's output gave `line`: a line with a progress
    /// reading raises the progress to that reading, taken as the whole when
    /// it is more, unless the progress already stands higher; it sets the
    /// rate and time left that it gives, and a rate or time left that it
    /// lacks stays as it was.
    pub open spec fn after_line(self, line: Seq<char>) -> QueueModel {
        let (p, s, e) = line_fields(line);
        match (self.active, p) {
            (Some(a), Some(f)) => {
                let t = self.tasks[a as int];
                QueueModel {
                    tasks: self.tasks.update(
                        a as int,
                        TaskModel {
                            progress: if t.progress.at_most(capped(f)) {
                                capped(f)
                            } else {
                                t.progress
                            },
                            speed: if s is Some {
                                s
                            } else {
                                t.speed
                            },
                            eta: if e is Some {
                                e
                            } else {
                                t.eta
                            },
                            ..t
                        },
                    ),
                    ..self
                }
            },
            _ => self,
        }
    }

    /// After the running task's run ended with `outcome`.
    pub open spec fn after_finish(self, outcome: TaskOutcome) -> QueueModel {
        match self.active {
            Some(a) => {
                let t = self.tasks[a as int];
                let done = match outcome {
                    TaskOutcome::Succeeded => TaskModel {
                        status: StatusModel::Completed,
                        progress: Fraction::spec_one(),
                        ..t
                    },
                    TaskOutcome::Failed(text) => TaskModel {
                        status: StatusModel::Failed(failure_reason(text@)),
                        ..t
                    },
                };
                QueueModel { tasks: self.tasks.update(a as int, done), started: self.started, active: None }
            },
            None => self,
        }
    }
}

/// A reading, taken as the whole when it is more.
pub open spec fn capped(f: Fraction) -> Fraction {
    if f.at_most(Fraction::spec_one()) {
        f
    } else {
        Fraction::spec_one()
    }
}

pub open spec fn queued_task(
    video_id: Seq<char>,
    video_url: Seq<char>,
    title: Seq<char>,
    output_path: Seq<char>,
) -> TaskModel {
    TaskModel {
        video_id,
        video_url,
        title,
        output_path,
        status: StatusModel::Queued,
        progress: Fraction::spec_zero(),
        speed: None,
        eta: None,
    }
}

pub open spec fn task_views(v: Seq<DownloadTask>) -> Seq<TaskModel> {
    v.map_values(|t: DownloadTask| t@)
}

fn copy_text(o: &Option<String>) -> (r: Option<String>)
    ensures
        opt_view(r) == opt_view(*o),
{
    match o {
        Some(s) => Some(s.clone()),
        None => None,
    }
}

fn copy_status(s: &DownloadStatus) -> (r: DownloadStatus)
    ensures
        r@ == s@,
{
    match s {
        DownloadStatus::Queued => DownloadStatus::Queued,
        DownloadStatus::Downloading => DownloadStatus::Downloading,
        DownloadStatus::Completed => DownloadStatus::Completed,
        DownloadStatus::Failed(m) => DownloadStatus::Failed(m.clone()),
    }
}

impl DownloadTask {
    /// A copy of this record.
    pub fn snapshot(&self) -> (r: DownloadTask)
        ensures
            r@ == self@,
    {
        DownloadTask {
            video_id: self.video_id.clone(),
            video_url: self.video_url.clone(),
            title: self.title.clone(),
            output_path: self.output_path.clone(),
            status: copy_status(&self.status),
            progress: self.progress,
            speed: copy_text(&self.speed),
            eta: copy_text(&self.eta),
        }
    }
}

/// The reason shown for a failed task, as `failure_reason` gives it.
pub fn reason_for(text: &String) -> (r: String)
    ensures
        r@ == failure_reason(text@),
{
    reveal(failure_reason);
    let cs = chars_of(text.as_str());
    let t = trim_chars(&cs);
    if t.len() == 0 {
        let m = "the download tool failed".to_string();
        proof {
            reveal_strlit("the download tool failed");
        }
        m
    } else {
        string_of(&t)
    }
}

/// The status that a run with this outcome leaves its task in.
fn status_after(outcome: TaskOutcome) -> (r: DownloadStatus)
    ensures
        r@ == match outcome {
            TaskOutcome::Succeeded => StatusModel::Completed,
            TaskOutcome::Failed(text) => StatusModel::Failed(failure_reason(text@)),
        },
{
    match outcome {
        TaskOutcome::Succeeded => DownloadStatus::Completed,
        TaskOutcome::Failed(text) => DownloadStatus::Failed(reason_for(&text)),
    }
}

/// The table of all submitted tasks, with the worker's place in it.
pub struct DownloadQueue {
    tasks: Vec<DownloadTask>,
    started: usize,
    active: Option<usize>,
}

impl View for DownloadQueue {
    type V = QueueModel;

    closed spec fn view(&self) -> QueueModel {
        QueueModel {
            tasks: task_views(self.tasks@),
            started: self.started as nat,
            active: match self.active {
                Some(a) => Some(a as nat),
                None => None,
            },
        }
    }
}

impl DownloadQueue {
    /// An empty queue.
    pub fn new() -> (r: DownloadQueue)
        ensures
            r@.tasks.len() == 0,
            r@.started == 0,
            r@.active is None,
            r@.wf(),
    {
        let r = DownloadQueue { tasks: Vec::new(), started: 0, active: None };
        assert(r@.tasks =~= Seq::<TaskModel>::empty());
        r
    }

    /// Submits a download: a new `Queued` record at the end of the table,
    /// with no progress, rate or time left. Tasks with the same id stay
    /// separate records.
    pub fn add_download(
        &mut self,
        video_id: String,
        video_url: String,
        title: String,
        output_path: String,
    )
        requires
            old(self)@.wf(),
        ensures
            final(self)@ == (QueueModel {
                tasks: old(self)@.tasks.push(
                    queued_task(video_id@, video_url@, title@, output_path@),
                ),
                ..old(self)@
            }),
            final(self)@.wf(),
    {
        let task = DownloadTask {
            video_id,
            video_url,
            title,
            output_path,
            status: DownloadStatus::Queued,
            progress: Fraction::zero(),
            speed: None,
            eta: None,
        };
        let ghost before = self.tasks@;
        self.tasks.push(task);
        assert(task_views(self.tasks@) =~= task_views(before).push(
            queued_task(video_id@, video_url@, title@, output_path@),
        ));
        proof {
            lemma_add_step(old(self)@, queued_task(video_id@, video_url@, title@, output_path@));
        }
    }

    /// A copy of every record, in submission order.
    pub fn get_tasks(&self) -> (r: Vec<DownloadTask>)
        ensures
            task_views(r@) == self@.tasks,
    {
        let mut out: Vec<DownloadTask> = Vec::new();
        let mut i: usize = 0;
        while i < self.tasks.len()
            invariant
                i <= self.tasks.len(),
                task_views(out@) == task_views(self.tasks@).take(i as int),
            decreases self.tasks.len() - i,
        {
            let ghost before = out@;
            out.push(self.tasks[i].snapshot());
            i = i + 1;
            assert(task_views(out@) =~= task_views(self.tasks@).take(i as int)) by {
                assert(task_views(out@) =~= task_views(before).push(self.tasks@[i - 1]@));
            }
        }
        assert(task_views(self.tasks@).take(i as int) =~= task_views(self.tasks@));
        out
    }

    /// How many tasks have been submitted.
    pub fn len(&self) -> (r: usize)
        ensures
            r == self@.tasks.len(),
    {
        self.tasks.len()
    }

    /// Begins the next task, if none is running and one is waiting: the
    /// oldest task not yet begun becomes `Downloading`, and a copy of its
    /// record is handed back for the worker to run.
    pub fn start_next(&mut self) -> (r: Option<DownloadTask>)
        requires
            old(self)@.wf(),
        ensures
            final(self)@ == old(self)@.after_start(),
            final(self)@.wf(),
            match old(self)@.next_to_start() {
                Some(i) => r is Some && r->0@ == final(self)@.tasks[i as int],
                None => r is None,
            },
    {
        if self.active.is_some() || self.started >= self.tasks.len() {
            return None;
        }
        let i = self.started;
        let ghost before = self@;
        let mut t = self.tasks[i].snapshot();
        t.status = DownloadStatus::Downloading;
        let copy = t.snapshot();
        self.tasks.set(i, t);
        self.started = i + 1;
        self.active = Some(i);
        proof {
            assert(task_views(self.tasks@) =~= before.after_start().tasks);
            lemma_start_step(before);
        }
        Some(copy)
    }

    /// Takes in one line of the running task's output (see `after_line`).
    pub fn record_line(&mut self, line: &str)
        requires
            old(self)@.wf(),
        ensures
            final(self)@ == old(self)@.after_line(line@),
            final(self)@.wf(),
    {
        let a = match self.active {
            Some(a) => a,
            None => {
                return ;
            },
        };
        let (p, s, e) = DownloadQueue::parse_download_line(line);
        let f = match p {
            Some(f) => f,
            None => {
                return ;
            },
        };
        let ghost before = self@;
        let mut t = self.tasks[a].snapshot();
        let c = f.capped();
        if t.progress.le(&c) {
            t.progress = c;
        }
        if s.is_some() {
            t.speed = s;
        }
        if e.is_some() {
            t.eta = e;
        }
        self.tasks.set(a, t);
        proof {
            assert(self@.tasks =~= before.after_line(line@).tasks);
            lemma_line_step(before, line@);
        }
    }

    /// Ends the running task: `Completed` with its whole progress, or
    /// `Failed` with the reason drawn from the error text.
    pub fn finish(&mut self, outcome: TaskOutcome)
        requires
            old(self)@.wf(),
        ensures
            final(self)@ == old(self)@.after_finish(outcome),
            final(self)@.wf(),
    {
        let a = match self.active {
            Some(a) => a,
            None => {
                return ;
            },
        };
        let ghost before = self@;
        let ghost out = outcome;
        let mut t = self.tasks[a].snapshot();
        let succeeded = matches!(outcome, TaskOutcome::Succeeded);
        t.status = status_after(outcome);
        if succeeded {
            t.progress = Fraction::one();
        }
        self.tasks.set(a, t);
        self.active = None;
        proof {
            assert(self@.tasks =~= before.after_finish(out).tasks);
            lemma_finish_step(before, out);
        }
    }
}


/// Between two views of the table no status goes back: every task of the
/// first is still there, at a stage no earlier, and a finished one is
/// unchanged.
pub open spec fn statuses_move_on(a: Seq<TaskModel>, b: Seq<TaskModel>) -> bool {
    &&& a.len() <= b.len()
    &&& forall|i: int|
        0 <= i < a.len() ==> rank((#[trigger] a[i]).status) <= rank(b[i].status) && (rank(
            a[i].status,
        ) == 2 ==> b[i].status == a[i].status)
}

/// One step of the queue: statuses move on, each by one stage at most.
pub open spec fn one_stage_at_most(a: Seq<TaskModel>, b: Seq<TaskModel>) -> bool {
    &&& statuses_move_on(a, b)
    &&& forall|i: int| 0 <= i < a.len() ==> rank(b[i].status) <= rank((#[trigger] a[i]).status) + 1
}

/// At any time at most one task is downloading.
pub proof fn lemma_one_download_at_a_time(q: QueueModel)
    requires
        q.wf(),
    ensures
        forall|i: int, j: int|
            0 <= i < q.tasks.len() && 0 <= j < q.tasks.len() && (#[trigger] q.tasks[i]).status is Downloading
                && (#[trigger] q.tasks[j]).status is Downloading ==> i == j,
{
    assert forall|i: int, j: int|
        0 <= i < q.tasks.len() && 0 <= j < q.tasks.len() && (#[trigger] q.tasks[i]).status is Downloading
            && (#[trigger] q.tasks[j]).status is Downloading implies i == j by {
        assert(q.active == Some(i as nat));
        assert(q.active == Some(j as nat));
    }
}

/// Tasks begin in the order in which they were submitted: when a task has
/// left `Queued`, so has every task submitted before it.
pub proof fn lemma_begun_in_order(q: QueueModel)
    requires
        q.wf(),
    ensures
        forall|i: int, j: int|
            0 <= i < j < q.tasks.len() && !((#[trigger] q.tasks[j]).status is Queued) ==> !((
            #[trigger] q.tasks[i]).status is Queued),
{
    assert forall|i: int, j: int|
        0 <= i < j < q.tasks.len() && !((#[trigger] q.tasks[j]).status is Queued) implies !((
        #[trigger] q.tasks[i]).status is Queued) by {
        assert(j < q.started);
    }
}

/// The worker always begins the oldest waiting task, and only once the task
/// before it has finished.
pub proof fn lemma_start_takes_oldest(q: QueueModel)
    requires
        q.wf(),
    ensures
        match q.next_to_start() {
            Some(i) => {
                &&& q.tasks[i as int].status is Queued
                &&& forall|j: int| 0 <= j < i ==> rank((#[trigger] q.tasks[j]).status) == 2
                &&& q.after_start().tasks[i as int].status is Downloading
                &&& q.after_start().active == Some(i)
            },
            None => q.after_start() == q,
        },
{
    if let Some(i) = q.next_to_start() {
        assert(q.tasks[i as int].status is Queued);
    }
}

proof fn lemma_add_step(q: QueueModel, added: TaskModel)
    requires
        q.wf(),
        added.status is Queued,
        added.progress == Fraction::spec_zero(),
        added.speed is None,
        added.eta is None,
    ensures
        (QueueModel { tasks: q.tasks.push(added), ..q }).wf(),
        one_stage_at_most(q.tasks, q.tasks.push(added)),
{
    let p = QueueModel { tasks: q.tasks.push(added), ..q };
    assert forall|i: int| 0 <= i < p.tasks.len() implies ((#[trigger] p.tasks[i]).status is Queued
        <==> i >= p.started) by {
        if i < q.tasks.len() {
            assert(p.tasks[i] == q.tasks[i]);
        }
    }
    assert forall|i: int|
        0 <= i < p.started && p.active != Some(i as nat) implies rank(
        (#[trigger] p.tasks[i]).status,
    ) == 2 by {
        assert(p.tasks[i] == q.tasks[i]);
    }
    assert forall|i: int|
        0 <= i < p.tasks.len() && (#[trigger] p.tasks[i]).status is Completed implies p.tasks[i].progress
        == Fraction::spec_one() by {
        assert(i < q.tasks.len());
        assert(p.tasks[i] == q.tasks[i]);
    }
    assert forall|i: int| 0 <= i < p.tasks.len() implies (#[trigger] p.tasks[i]).progress.at_most(
        Fraction::spec_one(),
    ) && p.tasks[i].progress.denom > 0 by {
        if i < q.tasks.len() {
            assert(p.tasks[i] == q.tasks[i]);
        }
    }
    assert forall|i: int| 0 <= i < p.tasks.len() && (#[trigger] p.tasks[i]).status is Queued implies p.tasks[i].progress
        == Fraction::spec_zero() && p.tasks[i].speed is None && p.tasks[i].eta is None by {
        if i < q.tasks.len() {
            assert(p.tasks[i] == q.tasks[i]);
        }
    }
}

proof fn lemma_start_step(q: QueueModel)
    requires
        q.wf(),
    ensures
        q.after_start().wf(),
        one_stage_at_most(q.tasks, q.after_start().tasks),
{
    let s = q.after_start();
    if let Some(k) = q.next_to_start() {
        assert forall|i: int| 0 <= i < s.tasks.len() implies ((#[trigger] s.tasks[i]).status is Queued
            <==> i >= s.started) by {
            if i != k {
                assert(s.tasks[i] == q.tasks[i]);
            }
        }
        assert forall|i: int|
            0 <= i < s.started && s.active != Some(i as nat) implies rank(
            (#[trigger] s.tasks[i]).status,
        ) == 2 by {
            assert(s.tasks[i] == q.tasks[i]);
        }
        assert forall|i: int|
            0 <= i < s.tasks.len() && (#[trigger] s.tasks[i]).status is Completed implies s.tasks[i].progress
            == Fraction::spec_one() by {
            assert(s.tasks[i] == q.tasks[i]);
        }
    }
}

proof fn lemma_line_step(q: QueueModel, line: Seq<char>)
    requires
        q.wf(),
    ensures
        q.after_line(line).wf(),
        one_stage_at_most(q.tasks, q.after_line(line).tasks),
{
    let l = q.after_line(line);
    lemma_readings_have_denominator(line);
    assert forall|i: int| 0 <= i < l.tasks.len() implies #[trigger] l.tasks[i].status
        == q.tasks[i].status by {}
}

proof fn lemma_finish_step(q: QueueModel, outcome: TaskOutcome)
    requires
        q.wf(),
    ensures
        q.after_finish(outcome).wf(),
        one_stage_at_most(q.tasks, q.after_finish(outcome).tasks),
{
    let f = q.after_finish(outcome);
    if let Some(a) = q.active {
        assert forall|i: int| 0 <= i < f.tasks.len() implies ((#[trigger] f.tasks[i]).status is Queued
            <==> i >= f.started) by {
            if i != a {
                assert(f.tasks[i] == q.tasks[i]);
            }
        }
        assert forall|i: int|
            0 <= i < f.started && f.active != Some(i as nat) implies rank(
            (#[trigger] f.tasks[i]).status,
        ) == 2 by {
            if i != a {
                assert(f.tasks[i] == q.tasks[i]);
            }
        }
        assert forall|i: int|
            0 <= i < f.tasks.len() && (#[trigger] f.tasks[i]).status is Completed implies f.tasks[i].progress
            == Fraction::spec_one() by {
            if i != a {
                assert(f.tasks[i] == q.tasks[i]);
            }
        }
    }
}

/// Every step of the queue (a submission, a start, a line of output, the end
/// of a run) keeps the invariant and moves each status on by one stage at
/// most; so statuses seen in successive snapshots never go back.
pub proof fn lemma_steps_move_on(
    q: QueueModel,
    added: TaskModel,
    line: Seq<char>,
    outcome: TaskOutcome,
)
    requires
        q.wf(),
        added.status is Queued,
        added.progress == Fraction::spec_zero(),
        added.speed is None,
        added.eta is None,
    ensures
        (QueueModel { tasks: q.tasks.push(added), ..q }).wf(),
        one_stage_at_most(q.tasks, q.tasks.push(added)),
        q.after_start().wf(),
        one_stage_at_most(q.tasks, q.after_start().tasks),
        q.after_line(line).wf(),
        one_stage_at_most(q.tasks, q.after_line(line).tasks),
        q.after_finish(outcome).wf(),
        one_stage_at_most(q.tasks, q.after_finish(outcome).tasks),
{
    lemma_add_step(q, added);
    lemma_start_step(q);
    lemma_line_step(q, line);
    lemma_finish_step(q, outcome);
}

/// Statuses that move on from one view to the next, and on again to a third,
/// have moved on from the first to the third.
pub proof fn lemma_move_on_chains(a: Seq<TaskModel>, b: Seq<TaskModel>, c: Seq<TaskModel>)
    requires
        statuses_move_on(a, b),
        statuses_move_on(b, c),
    ensures
        statuses_move_on(a, c),
{
    assert forall|i: int| 0 <= i < a.len() implies rank((#[trigger] a[i]).status) <= rank(
        c[i].status,
    ) && (rank(a[i].status) == 2 ==> c[i].status == a[i].status) by {
        assert(rank(b[i].status) <= rank(c[i].status));
    }
}

/// While a task downloads, its progress never goes down and never passes
/// the whole: a line with a reading above it raises it to that reading (or
/// to the whole), any other line leaves it as it is.
pub proof fn lemma_progress_never_goes_down(q: QueueModel, a: nat, line: Seq<char>)
    requires
        q.wf(),
        q.active == Some(a),
    ensures
        q.after_line(line).tasks[a as int].status is Downloading,
        q.tasks[a as int].progress.at_most(q.after_line(line).tasks[a as int].progress),
        q.after_line(line).tasks[a as int].progress.at_most(Fraction::spec_one()),
        match line_fields(line).0 {
            Some(f) => q.tasks[a as int].progress.at_most(capped(f)) ==> q.after_line(
                line,
            ).tasks[a as int].progress == capped(f),
            None => q.after_line(line) == q,
        },
{
    lemma_line_step(q, line);
}

/// A completed task has its whole progress.
pub proof fn lemma_completed_is_whole(q: QueueModel)
    requires
        q.wf(),
    ensures
        forall|i: int|
            0 <= i < q.tasks.len() && (#[trigger] q.tasks[i]).status is Completed
                ==> q.tasks[i].progress == Fraction::spec_one(),
{
}

/// A line that gives no rate, or no time left, leaves the one recorded
/// before as it was.
pub proof fn lemma_missing_fields_kept(q: QueueModel, a: nat, line: Seq<char>)
    requires
        q.wf(),
        q.active == Some(a),
    ensures
        line_fields(line).1 is None ==> q.after_line(line).tasks[a as int].speed
            == q.tasks[a as int].speed,
        line_fields(line).2 is None ==> q.after_line(line).tasks[a as int].eta
            == q.tasks[a as int].eta,
{
}

/// One step of the queue, as its methods take them.
pub enum QueueStep {
    /// `add_download` with this id, address, title and output path.
    Submit(Seq<char>, Seq<char>, Seq<char>, Seq<char>),
    /// `start_next`.
    Start,
    /// `record_line` with this line.
    Line(Seq<char>),
    /// `finish` with this outcome.
    Finish(TaskOutcome),
}

impl QueueModel {
    pub open spec fn after_step(self, step: QueueStep) -> QueueModel {
        match step {
            QueueStep::Submit(id, url, title, path) => QueueModel {
                tasks: self.tasks.push(queued_task(id, url, title, path)),
                ..self
            },
            QueueStep::Start => self.after_start(),
            QueueStep::Line(line) => self.after_line(line),
            QueueStep::Finish(outcome) => self.after_finish(outcome),
        }
    }

    /// After the steps, in order.
    pub open spec fn after_steps(self, steps: Seq<QueueStep>) -> QueueModel
        decreases steps.len(),
    {
        if steps.len() == 0 {
            self
        } else {
            self.after_steps(steps.drop_last()).after_step(steps.last())
        }
    }
}

proof fn lemma_one_step(q: QueueModel, step: QueueStep)
    requires
        q.wf(),
    ensures
        q.after_step(step).wf(),
        statuses_move_on(q.tasks, q.after_step(step).tasks),
{
    match step {
        QueueStep::Submit(id, url, title, path) => {
            lemma_add_step(q, queued_task(id, url, title, path));
        },
        QueueStep::Start => {
            lemma_start_step(q);
        },
        QueueStep::Line(line) => {
            lemma_line_step(q, line);
        },
        QueueStep::Finish(outcome) => {
            lemma_finish_step(q, outcome);
        },
    }
}

/// Over any history of steps from a sound queue, the queue stays sound (so
/// at most one task downloads, and tasks begin in submission order), and no
/// status seen at the start has gone back at the end: it is at the same
/// stage or later, and a finished status is unchanged.
pub proof fn lemma_history_moves_on(q: QueueModel, steps: Seq<QueueStep>)
    requires
        q.wf(),
    ensures
        q.after_steps(steps).wf(),
        statuses_move_on(q.tasks, q.after_steps(steps).tasks),
    decreases steps.len(),
{
    if steps.len() == 0 {
        assert(statuses_move_on(q.tasks, q.tasks));
    } else {
        let mid = q.after_steps(steps.drop_last());
        lemma_history_moves_on(q, steps.drop_last());
        lemma_one_step(mid, steps.last());
        lemma_move_on_chains(q.tasks, mid.tasks, q.after_steps(steps).tasks);
    }
}

/// A task begins only once every task submitted before it has finished.
pub proof fn lemma_earlier_finished_first(q: QueueModel)
    requires
        q.wf(),
    ensures
        forall|i: int, j: int|
            0 <= i < j < q.tasks.len() && !((#[trigger] q.tasks[j]).status is Queued) ==> rank(
                (#[trigger] q.tasks[i]).status,
            ) == 2,
{
    assert forall|i: int, j: int|
        0 <= i < j < q.tasks.len() && !((#[trigger] q.tasks[j]).status is Queued) implies rank(
        (#[trigger] q.tasks[i]).status,
    ) == 2 by {
        assert(j < q.started);
    }
}

/// The steps hold no line that gives a rate (`rate`) or a time left
/// (`!rate`).
pub open spec fn lines_lack(steps: Seq<QueueStep>, rate: bool) -> bool {
    forall|k: int|
        0 <= k < steps.len() ==> match #[trigger] steps[k] {
            QueueStep::Line(line) => if rate {
                line_fields(line).1 is None
            } else {
                line_fields(line).2 is None
            },
            _ => true,
        }
}

/// Over any history in which no line gives a rate, every task keeps the
/// rate it had; likewise for the time left.
pub proof fn lemma_history_keeps_missing_fields(q: QueueModel, steps: Seq<QueueStep>, rate: bool)
    requires
        q.wf(),
        lines_lack(steps, rate),
    ensures
        q.tasks.len() <= q.after_steps(steps).tasks.len(),
        forall|i: int|
            0 <= i < q.tasks.len() ==> if rate {
                (#[trigger] q.after_steps(steps).tasks[i]).speed == q.tasks[i].speed
            } else {
                q.after_steps(steps).tasks[i].eta == q.tasks[i].eta
            },
    decreases steps.len(),
{
    if steps.len() > 0 {
        let init = steps.drop_last();
        assert(lines_lack(init, rate)) by {
            assert forall|k: int| 0 <= k < init.len() implies match #[trigger] init[k] {
                QueueStep::Line(line) => if rate {
                    line_fields(line).1 is None
                } else {
                    line_fields(line).2 is None
                },
                _ => true,
            } by {
                assert(init[k] == steps[k]);
            }
        }
        lemma_history_keeps_missing_fields(q, init, rate);
        let mid = q.after_steps(init);
        let last = steps.last();
        assert(match last {
            QueueStep::Line(line) => if rate {
                line_fields(line).1 is None
            } else {
                line_fields(line).2 is None
            },
            _ => true,
        }) by {
            assert(steps[steps.len() - 1] == last);
        }
        let end = mid.after_step(last);
        lemma_history_moves_on(q, init);
        assert(mid.tasks.len() <= end.tasks.len());
        assert forall|i: int| 0 <= i < mid.tasks.len() implies if rate {
            (#[trigger] end.tasks[i]).speed == mid.tasks[i].speed
        } else {
            end.tasks[i].eta == mid.tasks[i].eta
        } by {
            match last {
                QueueStep::Submit(id, url, title, path) => {
                    assert(end.tasks[i] == mid.tasks[i]);
                },
                QueueStep::Start => {},
                QueueStep::Line(line) => {},
                QueueStep::Finish(outcome) => {},
            }
        }
    }
}

/// Error text with no white space round it is the reason itself.
pub proof fn lemma_plain_reason(text: Seq<char>)
    requires
        text.len() > 0,
        !is_space(text[0]),
        !is_space(text.last()),
    ensures
        failure_reason(text) == text,
{
    reveal(failure_reason);
    let n = text.len() as int;
    assert(0 <= 0 < n && !is_space(text[0]));
    let a = choose|a: int|
        0 <= a < n && !is_space(text[a]) && forall|j: int| 0 <= j < a ==> is_space(text[j]);
    let b = choose|b: int|
        0 <= b < n && !is_space(text[b]) && forall|j: int| b < j < n ==> is_space(text[j]);
    assert(forall|j: int| 0 <= j < 0 ==> is_space(text[j]));
    assert(forall|j: int| n - 1 < j < n ==> is_space(text[j]));
    assert(a == 0) by {
        if a > 0 {
            assert(is_space(text[0]));
        }
    }
    assert(b == n - 1) by {
        if b < n - 1 {
            assert(is_space(text[n - 1]));
        }
    }
    assert(text.subrange(0, n) =~= text);
}

/// `<=` on fractions with positive denominators chains.
proof fn lemma_at_most_chains(a: Fraction, b: Fraction, c: Fraction)
    requires
        a.at_most(b),
        b.at_most(c),
        b.denom > 0,
    ensures
        a.at_most(c),
{
    let (an, ad, bn, bd, cn, cd) = (
        a.numer as int,
        a.denom as int,
        b.numer as int,
        b.denom as int,
        c.numer as int,
        c.denom as int,
    );
    assert(an * cd * bd <= cn * ad * bd) by (nonlinear_arith)
        requires
            an * bd <= bn * ad,
            bn * cd <= cn * bd,
            ad >= 0,
            cd >= 0,
    ;
    assert(an * cd <= cn * ad) by (nonlinear_arith)
        requires
            an * cd * bd <= cn * ad * bd,
            bd > 0,
    ;
}

proof fn lemma_step_keeps_progress(q: QueueModel, step: QueueStep)
    requires
        q.wf(),
    ensures
        forall|i: int|
            0 <= i < q.tasks.len() ==> (#[trigger] q.tasks[i]).progress.at_most(
                q.after_step(step).tasks[i].progress,
            ),
{
    let e = q.after_step(step);
    lemma_one_step(q, step);
    assert forall|i: int| 0 <= i < q.tasks.len() implies (#[trigger] q.tasks[i]).progress.at_most(
        e.tasks[i].progress,
    ) by {
        let p = q.tasks[i].progress;
        assert(p.numer * p.denom <= p.numer * p.denom);
        match step {
            QueueStep::Submit(id, url, title, path) => {
                assert(e.tasks[i] == q.tasks[i]);
            },
            QueueStep::Start => {},
            QueueStep::Line(line) => {
                if q.active == Some(i as nat) {
                    lemma_progress_never_goes_down(q, i as nat, line);
                }
            },
            QueueStep::Finish(outcome) => {},
        }
    }
}

/// Over any history of steps from a sound queue, no task's progress goes
/// down (and a completed task ends with its whole progress).
pub proof fn lemma_history_progress_never_goes_down(q: QueueModel, steps: Seq<QueueStep>)
    requires
        q.wf(),
    ensures
        q.tasks.len() <= q.after_steps(steps).tasks.len(),
        forall|i: int|
            0 <= i < q.tasks.len() ==> (#[trigger] q.tasks[i]).progress.at_most(
                q.after_steps(steps).tasks[i].progress,
            ),
    decreases steps.len(),
{
    if steps.len() == 0 {
        assert forall|i: int| 0 <= i < q.tasks.len() implies (#[trigger] q.tasks[i]).progress.at_most(
            q.tasks[i].progress,
        ) by {
            let p = q.tasks[i].progress;
            assert(p.numer * p.denom <= p.numer * p.denom);
        }
    } else {
        let init = steps.drop_last();
        let mid = q.after_steps(init);
        let end = q.after_steps(steps);
        lemma_history_progress_never_goes_down(q, init);
        lemma_history_moves_on(q, init);
        lemma_step_keeps_progress(mid, steps.last());
        assert forall|i: int| 0 <= i < q.tasks.len() implies (#[trigger] q.tasks[i]).progress.at_most(
            end.tasks[i].progress,
        ) by {
            lemma_at_most_chains(q.tasks[i].progress, mid.tasks[i].progress, end.tasks[i].progress);
        }
    }
}

} // verus!
