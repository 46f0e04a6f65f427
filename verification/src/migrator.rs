//! The migration runs: `up`, `down`, `fresh`, `refresh` and `status`.
//!
//! A [`Run`] does not talk to the database itself. It says what it asks of it, and
//! goes on when it is given the reply:
//!
//! ```text
//! let mut run = Migrator::up(files, None);
//! loop {
//!     let reply = /* carry out run.request() */;
//!     match run.resume(reply) {
//!         Progress::Waiting(next) => run = next,
//!         Progress::Finished(result) => break result,
//!     }
//! }
//! ```

use std::collections::VecDeque;

use vstd::prelude::*;

use crate::error::{ErrorView, MigrationError};
use crate::files::{FileView, Files};
use crate::history::{
    highest_batch, migration_statuses, statuses, top_batch, MigrationStatus, StatusView,
};
use crate::plan::{
    after_plan_batch, after_plan_down, after_plan_down_all, after_plan_fresh, after_plan_refresh,
    after_plan_up, down_tasks, plan_batch, plan_down, plan_down_all, plan_fresh, plan_refresh,
    plan_up, up_tasks, Direction, Task, TaskView,
};
use crate::protocol::{answers, listed, Reply, ReplyView, Request, RequestView};
use crate::tables::{verified, verify_applied};
use crate::text::{truncate, truncated};

verus! {

broadcast use vstd::string::group_string_axioms;

/// How many bytes of a failed statement an error shows.
pub const SHOWN_SQL: usize = 200;

/// What a run that ended well brings.
#[derive(Debug, PartialEq, Eq)]
pub enum Report {
    Done,
    Statuses(Vec<MigrationStatus>),
}

/// The contents of a `Report`.
pub enum ReportView {
    Done,
    Statuses(Seq<StatusView>),
}

impl View for Report {
    type V = ReportView;

    open spec fn view(&self) -> ReportView {
        match *self {
            Report::Done => ReportView::Done,
            Report::Statuses(list) => ReportView::Statuses(list.deep_view()),
        }
    }
}

/// How a run ended.
pub open spec fn result_view(r: Result<Report, MigrationError>) -> Result<ReportView, ErrorView> {
    match r {
        Ok(report) => Ok(report@),
        Err(error) => Err(error@),
    }
}

/// The error for a statement that the database refused.
pub open spec fn statement_error(
    direction: Direction,
    name: Seq<char>,
    stmt: nat,
    sql: Seq<char>,
    cause: Seq<char>,
) -> ErrorView {
    let shown = truncated(sql, SHOWN_SQL as nat);
    match direction {
        Direction::Up => ErrorView::Apply { name, stmt, sql: shown, cause },
        Direction::Down => ErrorView::Rollback { name, stmt, sql: shown, cause },
    }
}

/// What the reply to a task leads to.
pub enum Effect {
    /// These tasks come next, before all others.
    Then(Seq<TaskView>),
    /// The run is over.
    Stop(Result<ReportView, ErrorView>),
}

/// What the reply to a task leads to. A refused request ends the run with an error,
/// and so does a missing table.
pub open spec fn effect(files: Seq<FileView>, task: TaskView, reply: ReplyView) -> Effect {
    match (task, reply) {
        (TaskView::Fail { error }, _) => Effect::Stop(Err(error)),
        (
            TaskView::Statement { direction, name, number, sql },
            ReplyView::Failed(cause),
        ) => Effect::Stop(Err(statement_error(direction, name, number, sql, cause))),
        (_, ReplyView::Failed(cause)) => Effect::Stop(Err(ErrorView::Database(cause))),
        (TaskView::PlanUp { steps }, ReplyView::Markers(records)) => Effect::Then(
            plan_up(files, steps, records),
        ),
        (TaskView::PlanBatch { names }, ReplyView::Markers(records)) => Effect::Then(
            plan_batch(files, names, records),
        ),
        (TaskView::PlanDown { steps }, ReplyView::Markers(records)) => Effect::Then(
            plan_down(files, steps, records),
        ),
        (TaskView::PlanDownAll, ReplyView::Markers(records)) => Effect::Then(
            plan_down_all(files, records),
        ),
        (TaskView::PlanRefresh, ReplyView::Markers(records)) => Effect::Then(
            plan_refresh(records),
        ),
        (TaskView::PlanFresh, ReplyView::Tables(tables)) => Effect::Then(
            plan_fresh(listed(tables)),
        ),
        (TaskView::Report, ReplyView::Markers(records)) => Effect::Stop(
            Ok(ReportView::Statuses(statuses(files, records))),
        ),
        (TaskView::Verify { name, expected }, ReplyView::Tables(tables)) => match verified(
            name,
            expected,
            listed(tables),
        ) {
            Ok(_) => Effect::Then(Seq::empty()),
            Err(error) => Effect::Stop(Err(error)),
        },
        _ => Effect::Then(Seq::empty()),
    }
}

/// Whether a reply can be given to a task: it is of the kind that was asked for, and a
/// batch number is left.
pub open spec fn fits(task: TaskView, reply: ReplyView) -> bool {
    &&& answers(task.request(), reply)
    &&& match (task, reply) {
        (TaskView::PlanBatch { .. }, ReplyView::Markers(records)) => top_batch(records) < u32::MAX,
        _ => true,
    }
}

/// A run: the migration files and the tasks ahead, the next one first.
pub struct RunView {
    pub files: Seq<FileView>,
    pub tasks: Seq<TaskView>,
}

/// Where a run stands: it waits for a reply, or it is over.
pub enum ProgressView {
    Waiting(RunView),
    Finished(Result<ReportView, ErrorView>),
}

/// The start of the given tasks. A run without tasks is over, and so is one whose
/// next task is to fail.
pub open spec fn started(files: Seq<FileView>, tasks: Seq<TaskView>) -> ProgressView {
    if tasks.len() == 0 {
        ProgressView::Finished(Ok(ReportView::Done))
    } else {
        match tasks[0] {
            TaskView::Fail { error } => ProgressView::Finished(Err(error)),
            _ => ProgressView::Waiting(RunView { files, tasks }),
        }
    }
}

impl RunView {
    /// Whether the run has something to ask.
    pub open spec fn waits(self) -> bool {
        self.tasks.len() > 0 && !(self.tasks[0] is Fail)
    }

    /// What the run asks of the database.
    pub open spec fn request(self) -> RequestView {
        self.tasks[0].request()
    }

    /// Whether the run can go on with the given reply.
    pub open spec fn accepts(self, reply: ReplyView) -> bool {
        fits(self.tasks[0], reply)
    }

    /// Where the run stands after a reply.
    pub open spec fn resumed(self, reply: ReplyView) -> ProgressView {
        match effect(self.files, self.tasks[0], reply) {
            Effect::Then(next) => started(self.files, next + self.tasks.drop_first()),
            Effect::Stop(result) => ProgressView::Finished(result),
        }
    }
}

/// A migration run that waits for the database.
#[derive(Debug)]
pub struct Run {
    files: Files,
    tasks: VecDeque<Task>,
}

impl View for Run {
    type V = RunView;

    closed spec fn view(&self) -> RunView {
        RunView { files: self.files@, tasks: self.tasks.deep_view() }
    }
}

/// Where a run stands: it waits for a reply, or it is over.
#[derive(Debug)]
pub enum Progress {
    Waiting(Run),
    Finished(Result<Report, MigrationError>),
}

impl View for Progress {
    type V = ProgressView;

    open spec fn view(&self) -> ProgressView {
        match *self {
            Progress::Waiting(run) => ProgressView::Waiting(run@),
            Progress::Finished(result) => ProgressView::Finished(result_view(result)),
        }
    }
}

/// What the reply to a task leads to.
enum Outcome {
    Then(Vec<Task>),
    Stop(Result<Report, MigrationError>),
}

spec fn outcome_view(o: Outcome) -> Effect {
    match o {
        Outcome::Then(tasks) => Effect::Then(tasks.deep_view()),
        Outcome::Stop(result) => Effect::Stop(result_view(result)),
    }
}

/// Takes the tables out of a reply.
fn listed_tables(tables: Option<Vec<String>>) -> (r: Vec<String>)
    ensures
        r.deep_view() == match tables {
            Some(names) => names.deep_view(),
            None => Seq::empty(),
        },
{
    match tables {
        Some(names) => names,
        None => {
            let r: Vec<String> = Vec::new();
            assert(r.deep_view() =~= Seq::empty());
            r
        },
    }
}

fn nothing_more() -> (r: Outcome)
    ensures
        outcome_view(r) == Effect::Then(Seq::empty()),
{
    let tasks: Vec<Task> = Vec::new();
    assert(tasks.deep_view() =~= Seq::empty());
    Outcome::Then(tasks)
}

/// Ends the run because a request failed.
fn refuse(task: Task, cause: String) -> (r: MigrationError)
    requires
        !(task@ is Fail),
    ensures
        forall|files: Seq<FileView>|
            Effect::Stop(Err(r@)) == #[trigger] effect(files, task@, ReplyView::Failed(cause@)),
{
    match task {
        Task::Statement { direction, name, number, sql } => {
            let shown: String = truncate(sql.as_str(), SHOWN_SQL);
            match direction {
                Direction::Up => MigrationError::Apply { name, stmt: number, sql: shown, cause },
                Direction::Down => MigrationError::Rollback {
                    name,
                    stmt: number,
                    sql: shown,
                    cause,
                },
            }
        },
        _ => MigrationError::Database(cause),
    }
}

/// Goes on after the reply to a task.
fn settle(files: &Files, task: Task, reply: Reply) -> (r: Outcome)
    requires
        !(task@ is Fail),
        fits(task@, reply@),
    ensures
        outcome_view(r) == effect(files@, task@, reply@),
{
    match reply {
        Reply::Failed(cause) => Outcome::Stop(Err(refuse(task, cause))),
        Reply::Done => nothing_more(),
        Reply::Markers(records) => match task {
            Task::PlanUp { steps } => Outcome::Then(after_plan_up(files, steps, &records)),
            Task::PlanBatch { names } => Outcome::Then(after_plan_batch(files, &names, &records)),
            Task::PlanDown { steps } => Outcome::Then(after_plan_down(files, steps, &records)),
            Task::PlanDownAll => Outcome::Then(after_plan_down_all(files, &records)),
            Task::PlanRefresh => Outcome::Then(after_plan_refresh(&records)),
            Task::Report => Outcome::Stop(
                Ok(Report::Statuses(migration_statuses(files, &records))),
            ),
            _ => nothing_more(),
        },
        Reply::Tables(tables) => match task {
            Task::PlanFresh => Outcome::Then(after_plan_fresh(&listed_tables(tables))),
            Task::Verify { name, expected } => match verify_applied(
                name,
                expected,
                &listed_tables(tables),
            ) {
                Ok(_) => nothing_more(),
                Err(error) => Outcome::Stop(Err(error)),
            },
            _ => nothing_more(),
        },
    }
}

/// Starts the given tasks.
fn start(files: Files, tasks: VecDeque<Task>) -> (r: Progress)
    ensures
        r@ == started(files@, tasks.deep_view()),
        r matches Progress::Waiting(run) ==> run@.waits(),
{
    let mut tasks = tasks;
    let ghost all = tasks.deep_view();
    match tasks.pop_front() {
        None => Progress::Finished(Ok(Report::Done)),
        Some(Task::Fail { error }) => Progress::Finished(Err(error)),
        Some(task) => {
            let ghost rest = tasks.deep_view();
            tasks.push_front(task);
            assert(tasks.deep_view() =~= all);
            Progress::Waiting(Run { files, tasks })
        },
    }
}

impl Run {
    /// A run always has something to ask.
    #[verifier::type_invariant]
    spec fn has_request(self) -> bool {
        self@.waits()
    }

    /// What the run asks of the database.
    pub fn request(&self) -> (r: Request)
        ensures
            r@ == self@.request(),
    {
        proof {
            use_type_invariant(self);
        }
        self.tasks[0].request()
    }

    /// The migration files.
    pub fn files(&self) -> (r: &Files)
        ensures
            r@ == self@.files,
    {
        &self.files
    }

    /// What the run is doing: the task that its request belongs to.
    pub fn task(&self) -> (r: &Task)
        ensures
            r@ == self@.tasks[0],
    {
        proof {
            use_type_invariant(self);
        }
        &self.tasks[0]
    }

    /// The migration at hand: the one that is being applied or rolled back.
    pub fn migration(&self) -> (r: Option<&String>)
        ensures
            match self@.tasks[0].migration() {
                Some(name) => r is Some && r->0@ == name,
                None => r is None,
            },
    {
        self.task().migration()
    }

    /// Whether the run can go on with the given reply.
    pub fn accepts(&self, reply: &Reply) -> (r: bool)
        ensures
            r == self@.accepts(reply@),
    {
        proof {
            use_type_invariant(self);
        }
        match (self.tasks[0].request(), reply) {
            (_, Reply::Failed(_)) => true,
            (Request::SelectMarkers, Reply::Markers(records)) => match &self.tasks[0] {
                Task::PlanBatch { .. } => highest_batch(records) < u32::MAX,
                _ => true,
            },
            (Request::SelectMarkers, _) => false,
            (Request::ListTables, Reply::Tables(_)) => true,
            (Request::ListTables, _) => false,
            (_, Reply::Done) => true,
            (_, _) => false,
        }
    }

    /// Goes on with the reply to the request.
    pub fn resume(self, reply: Reply) -> (r: Progress)
        requires
            self@.accepts(reply@),
        ensures
            r@ == self@.resumed(reply@),
            r matches Progress::Waiting(run) ==> run@.waits(),
    {
        proof {
            use_type_invariant(&self);
        }
        let ghost all = self@.tasks;
        let Run { files, mut tasks } = self;
        match tasks.pop_front() {
            None => {
                assert(false);
                Progress::Finished(Ok(Report::Done))
            },
            Some(task) => {
                let ghost rest = tasks.deep_view();
                assert(rest =~= all.drop_first());
                match settle(&files, task, reply) {
                    Outcome::Stop(result) => Progress::Finished(result),
                    Outcome::Then(next) => {
                        let mut next = next;
                        let ghost whole = next.deep_view() + rest;
                        while next.len() > 0
                            invariant
                                next.deep_view() + tasks.deep_view() == whole,
                            decreases next@.len(),
                        {
                            let ghost front = next.deep_view();
                            let ghost back = tasks.deep_view();
                            if let Some(last) = next.pop() {
                                tasks.push_front(last);
                                assert(next.deep_view() =~= front.drop_last());
                                assert(tasks.deep_view() =~= seq![front.last()] + back);
                                assert(next.deep_view() + tasks.deep_view() =~= whole);
                            }
                        }
                        assert(tasks.deep_view() =~= whole);
                        start(files, tasks)
                    },
                }
            },
        }
    }
}

/// The migration runner.
pub struct Migrator;

impl Migrator {
    /// Applies all pending migrations, or only the next `steps` if given.
    pub fn up(files: Files, steps: Option<u32>) -> (r: Run)
        ensures
            r@ == (RunView { files: files@, tasks: up_tasks(steps) }),
    {
        let mut tasks: VecDeque<Task> = VecDeque::new();
        tasks.push_back(Task::DefineMarkers);
        tasks.push_back(Task::PlanUp { steps });
        assert(tasks.deep_view() =~= up_tasks(steps));
        Run { files, tasks }
    }

    /// Rolls back the last `steps` applied migrations (default: 1): those of the highest
    /// batch numbers and, within a batch, of the last names.
    pub fn down(files: Files, steps: Option<u32>) -> (r: Run)
        ensures
            r@ == (RunView { files: files@, tasks: down_tasks(steps) }),
    {
        let mut tasks: VecDeque<Task> = VecDeque::new();
        tasks.push_back(Task::DefineMarkers);
        tasks.push_back(Task::PlanDown { steps });
        assert(tasks.deep_view() =~= down_tasks(steps));
        Run { files, tasks }
    }

    /// Removes all tables, then applies every migration. Does not need the `down`
    /// files.
    pub fn fresh(files: Files) -> (r: Run)
        ensures
            r@ == (RunView { files: files@, tasks: seq![TaskView::PlanFresh] }),
    {
        let mut tasks: VecDeque<Task> = VecDeque::new();
        tasks.push_back(Task::PlanFresh);
        assert(tasks.deep_view() =~= seq![TaskView::PlanFresh]);
        Run { files, tasks }
    }

    /// Rolls back every applied migration with its `down` file, then applies
    /// everything again.
    pub fn refresh(files: Files) -> (r: Run)
        ensures
            r@ == (RunView {
                files: files@,
                tasks: seq![TaskView::DefineMarkers, TaskView::PlanRefresh],
            }),
    {
        let mut tasks: VecDeque<Task> = VecDeque::new();
        tasks.push_back(Task::DefineMarkers);
        tasks.push_back(Task::PlanRefresh);
        assert(tasks.deep_view() =~= seq![TaskView::DefineMarkers, TaskView::PlanRefresh]);
        Run { files, tasks }
    }

    /// Lists every known migration with its applied state and batch.
    pub fn status(files: Files) -> (r: Run)
        ensures
            r@ == (RunView {
                files: files@,
                tasks: seq![TaskView::DefineMarkers, TaskView::Report],
            }),
    {
        let mut tasks: VecDeque<Task> = VecDeque::new();
        tasks.push_back(Task::DefineMarkers);
        tasks.push_back(Task::Report);
        assert(tasks.deep_view() =~= seq![TaskView::DefineMarkers, TaskView::Report]);
        Run { files, tasks }
    }
}

} // verus!
