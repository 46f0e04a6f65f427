//! The tasks that a run is made of, and the order in which they are done.
//!
//! Each migration file is run statement by statement. Only when every statement of
//! an `up` file has been accepted and every table that the file defines is there
//! does the marker of the migration follow.

use vstd::prelude::*;

use crate::error::{ErrorView, MigrationError};
use crate::files::{file_text, load_file, FileView, Files};
use crate::history::{
    latest_first, latest_names, limit, limited, next_batch, pending, pending_migrations,
    rollback_names, to_roll_back, top_batch, MigrationRecord, RecordView,
};
use crate::protocol::{Request, RequestView};
use crate::surql::{split_statements, statements};
use crate::tables::{defined_tables, extract_defined_tables};

verus! {

broadcast use vstd::string::group_string_axioms;

/// Which of its two files a statement of a migration comes from.
#[derive(Debug, Clone, Copy, PartialEq, Eq, Structural)]
pub enum Direction {
    Up,
    Down,
}

/// One task of a run. Every task but `Fail` takes one request to the database.
#[derive(Debug, PartialEq, Eq)]
pub enum Task {
    /// Create the `_migrations` table if there is none.
    DefineMarkers,
    /// Look at the markers to find the pending migrations.
    PlanUp { steps: Option<u32> },
    /// Look at the markers to find the batch number, then apply the migrations.
    PlanBatch { names: Vec<String> },
    /// Look at the markers to find the migrations to roll back.
    PlanDown { steps: Option<u32> },
    /// Look at the markers to roll back all migrations.
    PlanDownAll,
    /// Look at the markers to find whether a refresh rolls anything back.
    PlanRefresh,
    /// Look at the tables to find those that a fresh start removes.
    PlanFresh,
    /// Look at the markers to report the state of every migration.
    Report,
    /// Run statement `number` (counted from 1) of a migration file.
    Statement { direction: Direction, name: String, number: usize, sql: String },
    /// Look at the tables to confirm that the expected ones exist.
    Verify { name: String, expected: Vec<String> },
    /// Mark a migration as applied.
    Mark { name: String, batch: u32 },
    /// Delete the marker of a migration.
    Unmark { name: String },
    /// Remove a table.
    DropTable { table: String },
    /// Delete all markers.
    ClearMarkers,
    /// End the run with an error.
    Fail { error: MigrationError },
}

/// The contents of a `Task`.
pub enum TaskView {
    DefineMarkers,
    PlanUp { steps: Option<u32> },
    PlanBatch { names: Seq<Seq<char>> },
    PlanDown { steps: Option<u32> },
    PlanDownAll,
    PlanRefresh,
    PlanFresh,
    Report,
    Statement { direction: Direction, name: Seq<char>, number: nat, sql: Seq<char> },
    Verify { name: Seq<char>, expected: Seq<Seq<char>> },
    Mark { name: Seq<char>, batch: u32 },
    Unmark { name: Seq<char> },
    DropTable { table: Seq<char> },
    ClearMarkers,
    Fail { error: ErrorView },
}

impl View for Task {
    type V = TaskView;

    open spec fn view(&self) -> TaskView {
        match *self {
            Task::DefineMarkers => TaskView::DefineMarkers,
            Task::PlanUp { steps } => TaskView::PlanUp { steps },
            Task::PlanBatch { names } => TaskView::PlanBatch { names: names.deep_view() },
            Task::PlanDown { steps } => TaskView::PlanDown { steps },
            Task::PlanDownAll => TaskView::PlanDownAll,
            Task::PlanRefresh => TaskView::PlanRefresh,
            Task::PlanFresh => TaskView::PlanFresh,
            Task::Report => TaskView::Report,
            Task::Statement { direction, name, number, sql } => TaskView::Statement {
                direction,
                name: name@,
                number: number as nat,
                sql: sql@,
            },
            Task::Verify { name, expected } => TaskView::Verify {
                name: name@,
                expected: expected.deep_view(),
            },
            Task::Mark { name, batch } => TaskView::Mark { name: name@, batch },
            Task::Unmark { name } => TaskView::Unmark { name: name@ },
            Task::DropTable { table } => TaskView::DropTable { table: table@ },
            Task::ClearMarkers => TaskView::ClearMarkers,
            Task::Fail { error } => TaskView::Fail { error: error@ },
        }
    }
}

impl DeepView for Task {
    type V = TaskView;

    open spec fn deep_view(&self) -> TaskView {
        self@
    }
}

impl TaskView {
    /// The request that the task makes.
    pub open spec fn request(self) -> RequestView {
        match self {
            TaskView::DefineMarkers => RequestView::DefineMarkers,
            TaskView::PlanUp { .. } => RequestView::SelectMarkers,
            TaskView::PlanBatch { .. } => RequestView::SelectMarkers,
            TaskView::PlanDown { .. } => RequestView::SelectMarkers,
            TaskView::PlanDownAll => RequestView::SelectMarkers,
            TaskView::PlanRefresh => RequestView::SelectMarkers,
            TaskView::PlanFresh => RequestView::ListTables,
            TaskView::Report => RequestView::SelectMarkers,
            TaskView::Statement { sql, .. } => RequestView::Execute { sql },
            TaskView::Verify { .. } => RequestView::ListTables,
            TaskView::Mark { name, batch } => RequestView::InsertMarker { name, batch },
            TaskView::Unmark { name } => RequestView::DeleteMarker { name },
            TaskView::DropTable { table } => RequestView::DropTable { table },
            TaskView::ClearMarkers => RequestView::ClearMarkers,
            TaskView::Fail { .. } => arbitrary(),
        }
    }

    /// The migration that the task belongs to.
    pub open spec fn migration(self) -> Option<Seq<char>> {
        match self {
            TaskView::Statement { name, .. } => Some(name),
            TaskView::Verify { name, .. } => Some(name),
            TaskView::Mark { name, .. } => Some(name),
            TaskView::Unmark { name } => Some(name),
            _ => None,
        }
    }
}

impl Task {
    /// The request that the task makes.
    pub fn request(&self) -> (r: Request)
        requires
            !(self@ is Fail),
        ensures
            r@ == self@.request(),
    {
        match self {
            Task::DefineMarkers => Request::DefineMarkers,
            Task::PlanUp { .. } => Request::SelectMarkers,
            Task::PlanBatch { .. } => Request::SelectMarkers,
            Task::PlanDown { .. } => Request::SelectMarkers,
            Task::PlanDownAll => Request::SelectMarkers,
            Task::PlanRefresh => Request::SelectMarkers,
            Task::PlanFresh => Request::ListTables,
            Task::Report => Request::SelectMarkers,
            Task::Statement { sql, .. } => Request::Execute { sql: sql.clone() },
            Task::Verify { .. } => Request::ListTables,
            Task::Mark { name, batch } => Request::InsertMarker {
                name: name.clone(),
                batch: *batch,
            },
            Task::Unmark { name } => Request::DeleteMarker { name: name.clone() },
            Task::DropTable { table } => Request::DropTable { table: table.clone() },
            Task::ClearMarkers => Request::ClearMarkers,
            Task::Fail { .. } => {
                assert(false);
                Request::ClearMarkers
            },
        }
    }

    /// The migration that the task belongs to.
    pub fn migration(&self) -> (r: Option<&String>)
        ensures
            match self@.migration() {
                Some(name) => r is Some && r->0@ == name,
                None => r is None,
            },
    {
        match self {
            Task::Statement { name, .. } => Some(name),
            Task::Verify { name, .. } => Some(name),
            Task::Mark { name, .. } => Some(name),
            Task::Unmark { name } => Some(name),
            _ => None,
        }
    }
}

/// The path of the file with the forward change.
pub open spec fn up_path(name: Seq<char>) -> Seq<char> {
    "up/"@ + name + ".surql"@
}

/// The path of the file with the reverse.
pub open spec fn down_path(name: Seq<char>) -> Seq<char> {
    "down/"@ + name + ".surql"@
}

/// One task for each statement, numbered from 1.
pub open spec fn statement_tasks(
    direction: Direction,
    name: Seq<char>,
    stmts: Seq<Seq<char>>,
) -> Seq<TaskView> {
    Seq::new(
        stmts.len(),
        |k: int|
            TaskView::Statement { direction, name, number: (k + 1) as nat, sql: stmts[k] },
    )
}

/// The check for the tables that a migration defines; none if it defines no table.
pub open spec fn verify_tasks(name: Seq<char>, expected: Seq<Seq<char>>) -> Seq<TaskView> {
    if expected.len() == 0 {
        Seq::empty()
    } else {
        seq![TaskView::Verify { name, expected }]
    }
}

/// What it takes to apply a migration: its statements, the check for its tables,
/// and last its marker.
pub open spec fn apply_tasks(files: Seq<FileView>, name: Seq<char>, batch: u32) -> Seq<TaskView> {
    match file_text(files, up_path(name)) {
        Ok(sql) => statement_tasks(Direction::Up, name, statements(sql)) + verify_tasks(
            name,
            defined_tables(sql),
        ) + seq![TaskView::Mark { name, batch }],
        Err(error) => seq![TaskView::Fail { error }],
    }
}

/// What it takes to roll a migration back: its statements, and last the deletion of
/// its marker. A `down` file that is missing is named by its migration.
pub open spec fn rollback_tasks(files: Seq<FileView>, name: Seq<char>) -> Seq<TaskView> {
    match file_text(files, down_path(name)) {
        Ok(sql) => statement_tasks(Direction::Down, name, statements(sql)) + seq![
            TaskView::Unmark { name },
        ],
        Err(ErrorView::NoDownFile(_)) => seq![
            TaskView::Fail { error: ErrorView::NoDownFile(name) },
        ],
        Err(error) => seq![TaskView::Fail { error }],
    }
}

/// One migration after the other, all in one batch.
pub open spec fn apply_all(
    files: Seq<FileView>,
    names: Seq<Seq<char>>,
    batch: u32,
) -> Seq<TaskView>
    decreases names.len(),
{
    if names.len() == 0 {
        Seq::empty()
    } else {
        apply_all(files, names.drop_last(), batch) + apply_tasks(files, names.last(), batch)
    }
}

/// One rollback after the other.
pub open spec fn rollback_all(files: Seq<FileView>, names: Seq<Seq<char>>) -> Seq<TaskView>
    decreases names.len(),
{
    if names.len() == 0 {
        Seq::empty()
    } else {
        rollback_all(files, names.drop_last()) + rollback_tasks(files, names.last())
    }
}

/// With the markers at hand: nothing if nothing is pending, otherwise the first
/// `steps` pending migrations.
pub open spec fn plan_up(
    files: Seq<FileView>,
    steps: Option<u32>,
    records: Seq<RecordView>,
) -> Seq<TaskView> {
    let names = pending(files, records);
    if names.len() == 0 {
        Seq::empty()
    } else {
        seq![TaskView::PlanBatch { names: limited(names, steps) }]
    }
}

/// With the markers at hand: the migrations get the batch number after the highest.
pub open spec fn plan_batch(
    files: Seq<FileView>,
    names: Seq<Seq<char>>,
    records: Seq<RecordView>,
) -> Seq<TaskView> {
    apply_all(files, names, (top_batch(records) + 1) as u32)
}

/// With the markers at hand: the rollback of the `steps` that were applied last.
pub open spec fn plan_down(
    files: Seq<FileView>,
    steps: Option<u32>,
    records: Seq<RecordView>,
) -> Seq<TaskView> {
    rollback_all(files, to_roll_back(records, steps))
}

/// With the markers at hand: the rollback of all of them, the one applied last first.
pub open spec fn plan_down_all(files: Seq<FileView>, records: Seq<RecordView>) -> Seq<TaskView> {
    rollback_all(files, latest_first(records))
}

/// The tasks of `up`.
pub open spec fn up_tasks(steps: Option<u32>) -> Seq<TaskView> {
    seq![TaskView::DefineMarkers, TaskView::PlanUp { steps }]
}

/// The tasks of `down`.
pub open spec fn down_tasks(steps: Option<u32>) -> Seq<TaskView> {
    seq![TaskView::DefineMarkers, TaskView::PlanDown { steps }]
}

/// The tasks of a rollback of everything.
pub open spec fn down_all_tasks() -> Seq<TaskView> {
    seq![TaskView::DefineMarkers, TaskView::PlanDownAll]
}

/// With the markers at hand: roll back everything, if there are any, then apply
/// everything.
pub open spec fn plan_refresh(records: Seq<RecordView>) -> Seq<TaskView> {
    if records.len() > 0 {
        down_all_tasks() + up_tasks(None)
    } else {
        up_tasks(None)
    }
}

/// One task for each table but `_migrations`.
pub open spec fn drop_tasks(tables: Seq<Seq<char>>) -> Seq<TaskView>
    decreases tables.len(),
{
    if tables.len() == 0 {
        Seq::empty()
    } else if tables.last() == "_migrations"@ {
        drop_tasks(tables.drop_last())
    } else {
        drop_tasks(tables.drop_last()).push(TaskView::DropTable { table: tables.last() })
    }
}

/// With the tables at hand: remove them, delete all markers, then apply everything.
pub open spec fn plan_fresh(tables: Seq<Seq<char>>) -> Seq<TaskView> {
    drop_tasks(tables).push(TaskView::ClearMarkers) + up_tasks(None)
}

/// Adds the statements of a file to the tasks.
fn push_statements(tasks: &mut Vec<Task>, direction: Direction, name: &String, sql: &str)
    ensures
        final(tasks).deep_view() == old(tasks).deep_view() + statement_tasks(
            direction,
            name@,
            statements(sql@),
        ),
{
    let stmts: Vec<String> = split_statements(sql);
    let ghost before = tasks.deep_view();
    let ghost all = statement_tasks(direction, name@, stmts.deep_view());
    let mut i: usize = 0;
    assert(before + all.take(0) =~= before);
    while i < stmts.len()
        invariant
            i <= stmts@.len(),
            all == statement_tasks(direction, name@, stmts.deep_view()),
            tasks.deep_view() == before + all.take(i as int),
        decreases stmts@.len() - i,
    {
        let ghost now = tasks.deep_view();
        tasks.push(
            Task::Statement {
                direction,
                name: name.clone(),
                number: i + 1,
                sql: stmts[i].clone(),
            },
        );
        assert(tasks.deep_view() =~= now.push(all[i as int]));
        i += 1;
        assert(tasks.deep_view() =~= before + all.take(i as int));
    }
    assert(all.take(i as int) =~= all);
}

fn surql_path(folder: &str, name: &String) -> (r: String)
    ensures
        r@ == folder@ + name@ + ".surql"@,
{
    let mut path = folder.to_owned();
    path.append(name.as_str());
    path.append(".surql");
    path
}

/// Adds what it takes to apply a migration.
pub fn apply_one(tasks: &mut Vec<Task>, files: &Files, name: &String, batch: u32)
    ensures
        final(tasks).deep_view() == old(tasks).deep_view() + apply_tasks(files@, name@, batch),
{
    let ghost before = tasks.deep_view();
    let ghost whole = apply_tasks(files@, name@, batch);
    match load_file(files, surql_path("up/", name).as_str()) {
        Ok(sql) => {
            push_statements(tasks, Direction::Up, name, sql.as_str());
            let ghost first = tasks.deep_view();
            let expected: Vec<String> = extract_defined_tables(sql.as_str());
            if !expected.is_empty() {
                let ghost names = expected.deep_view();
                tasks.push(Task::Verify { name: name.clone(), expected });
                assert(tasks.deep_view() =~= first.push(
                    TaskView::Verify { name: name@, expected: names },
                ));
            }
            let ghost second = tasks.deep_view();
            tasks.push(Task::Mark { name: name.clone(), batch });
            assert(tasks.deep_view() =~= second.push(TaskView::Mark { name: name@, batch }));
            assert(tasks.deep_view() =~= before + whole);
        },
        Err(error) => {
            let ghost e = error@;
            tasks.push(Task::Fail { error });
            assert(tasks.deep_view() =~= before.push(TaskView::Fail { error: e }));
            assert(tasks.deep_view() =~= before + whole);
        },
    }
}

/// Adds what it takes to roll a migration back.
pub fn rollback_one(tasks: &mut Vec<Task>, files: &Files, name: &String)
    ensures
        final(tasks).deep_view() == old(tasks).deep_view() + rollback_tasks(files@, name@),
{
    let ghost before = tasks.deep_view();
    let ghost whole = rollback_tasks(files@, name@);
    match load_file(files, surql_path("down/", name).as_str()) {
        Ok(sql) => {
            push_statements(tasks, Direction::Down, name, sql.as_str());
            let ghost first = tasks.deep_view();
            tasks.push(Task::Unmark { name: name.clone() });
            assert(tasks.deep_view() =~= first.push(TaskView::Unmark { name: name@ }));
            assert(tasks.deep_view() =~= before + whole);
        },
        Err(MigrationError::NoDownFile(_)) => {
            tasks.push(Task::Fail { error: MigrationError::NoDownFile(name.clone()) });
            assert(tasks.deep_view() =~= before.push(
                TaskView::Fail { error: ErrorView::NoDownFile(name@) },
            ));
            assert(tasks.deep_view() =~= before + whole);
        },
        Err(error) => {
            let ghost e = error@;
            tasks.push(Task::Fail { error });
            assert(tasks.deep_view() =~= before.push(TaskView::Fail { error: e }));
            assert(tasks.deep_view() =~= before + whole);
        },
    }
}

/// Plans `up`, given the markers.
pub fn after_plan_up(files: &Files, steps: Option<u32>, records: &Vec<MigrationRecord>) -> (r: Vec<
    Task,
>)
    ensures
        r.deep_view() == plan_up(files@, steps, records.deep_view()),
{
    let names: Vec<String> = pending_migrations(files, records);
    let mut tasks: Vec<Task> = Vec::new();
    if !names.is_empty() {
        tasks.push(Task::PlanBatch { names: limit(names, steps) });
    }
    assert(tasks.deep_view() =~= plan_up(files@, steps, records.deep_view()));
    tasks
}

/// Plans the applications of one batch, given the markers.
pub fn after_plan_batch(files: &Files, names: &Vec<String>, records: &Vec<MigrationRecord>) -> (r:
    Vec<Task>)
    requires
        top_batch(records.deep_view()) < u32::MAX,
    ensures
        r.deep_view() == plan_batch(files@, names.deep_view(), records.deep_view()),
{
    let batch: u32 = next_batch(records);
    let ghost all = names.deep_view();
    let mut tasks: Vec<Task> = Vec::new();
    let mut i: usize = 0;
    assert(tasks.deep_view() =~= apply_all(files@, all.take(0), batch));
    while i < names.len()
        invariant
            i <= names@.len(),
            all == names.deep_view(),
            tasks.deep_view() == apply_all(files@, all.take(i as int), batch),
        decreases names@.len() - i,
    {
        assert(all.take(i + 1).drop_last() =~= all.take(i as int));
        apply_one(&mut tasks, files, &names[i], batch);
        i += 1;
    }
    assert(all.take(i as int) =~= all);
    tasks
}

/// Plans `down`, given the markers.
pub fn after_plan_down(files: &Files, steps: Option<u32>, records: &Vec<MigrationRecord>) -> (r:
    Vec<Task>)
    ensures
        r.deep_view() == plan_down(files@, steps, records.deep_view()),
{
    roll_back_each(files, &rollback_names(records, steps))
}

/// Plans the rollback of everything, given the markers.
pub fn after_plan_down_all(files: &Files, records: &Vec<MigrationRecord>) -> (r: Vec<Task>)
    ensures
        r.deep_view() == plan_down_all(files@, records.deep_view()),
{
    roll_back_each(files, &latest_names(records))
}

/// Plans the rollbacks of the given migrations.
fn roll_back_each(files: &Files, names: &Vec<String>) -> (r: Vec<Task>)
    ensures
        r.deep_view() == rollback_all(files@, names.deep_view()),
{
    let ghost all = names.deep_view();
    let mut tasks: Vec<Task> = Vec::new();
    let mut i: usize = 0;
    assert(tasks.deep_view() =~= rollback_all(files@, all.take(0)));
    while i < names.len()
        invariant
            i <= names@.len(),
            all == names.deep_view(),
            tasks.deep_view() == rollback_all(files@, all.take(i as int)),
        decreases names@.len() - i,
    {
        assert(all.take(i + 1).drop_last() =~= all.take(i as int));
        rollback_one(&mut tasks, files, &names[i]);
        i += 1;
    }
    assert(all.take(i as int) =~= all);
    tasks
}

/// Plans `refresh`, given the markers.
pub fn after_plan_refresh(records: &Vec<MigrationRecord>) -> (r: Vec<Task>)
    ensures
        r.deep_view() == plan_refresh(records.deep_view()),
{
    let mut tasks: Vec<Task> = Vec::new();
    if records.len() > 0 {
        tasks.push(Task::DefineMarkers);
        tasks.push(Task::PlanDownAll);
    }
    tasks.push(Task::DefineMarkers);
    tasks.push(Task::PlanUp { steps: None });
    assert(tasks.deep_view() =~= plan_refresh(records.deep_view()));
    tasks
}

/// Plans `fresh`, given the tables.
pub fn after_plan_fresh(tables: &Vec<String>) -> (r: Vec<Task>)
    ensures
        r.deep_view() == plan_fresh(tables.deep_view()),
{
    let own: String = "_migrations".to_owned();
    let ghost all = tables.deep_view();
    let mut tasks: Vec<Task> = Vec::new();
    let mut i: usize = 0;
    assert(tasks.deep_view() =~= drop_tasks(all.take(0)));
    while i < tables.len()
        invariant
            i <= tables@.len(),
            own@ == "_migrations"@,
            all == tables.deep_view(),
            tasks.deep_view() == drop_tasks(all.take(i as int)),
        decreases tables@.len() - i,
    {
        assert(all.take(i + 1).drop_last() =~= all.take(i as int));
        if tables[i] != own {
            let ghost before = tasks.deep_view();
            tasks.push(Task::DropTable { table: tables[i].clone() });
            assert(tasks.deep_view() =~= before.push(TaskView::DropTable { table: all[i as int] }));
        }
        i += 1;
    }
    assert(all.take(i as int) =~= all);
    let ghost drops = tasks.deep_view();
    tasks.push(Task::ClearMarkers);
    tasks.push(Task::DefineMarkers);
    tasks.push(Task::PlanUp { steps: None });
    assert(tasks.deep_view() =~= plan_fresh(all));
    tasks
}

} // verus!
