//! What the ends and the requests of a run go back to: why it failed, which files it
//! reads and which statements it runs.

use vstd::prelude::*;

use crate::conversation::{accepted, asked, each_reply, performed, played};
use crate::error::ErrorView;
use crate::files::{file_text, migration_names, FileView};
use crate::history::{latest_first, limited, pending, record_names, to_roll_back, top_batch};
use crate::laws::{
    down_follows_its_plan, down_plan, is_command, now_waits, up_follows_its_plan, up_plan,
};
use crate::migrator::{effect, statement_error, Effect, ProgressView, ReportView, RunView};
use crate::plan::{
    apply_all, apply_tasks, down_path, down_tasks, drop_tasks, rollback_all, rollback_tasks,
    up_path, up_tasks, TaskView,
};
use crate::protocol::{listed, ReplyView, RequestView};
use crate::surql::statements;
use crate::tables::missing_from;

verus! {

/// Whether an error is that a migration file cannot be read: it is missing, or it is no
/// text.
pub open spec fn unreadable(files: Seq<FileView>, error: ErrorView) -> bool {
    ||| exists|name: Seq<char>|
        (#[trigger] file_text(files, up_path(name))) == Err::<Seq<char>, ErrorView>(error)
    ||| exists|name: Seq<char>|
        #[trigger] file_text(files, down_path(name)) matches Err(fault) && error == match fault {
            ErrorView::NoDownFile(_) => ErrorView::NoDownFile(name),
            _ => fault,
        }
}

/// Whether all failures ahead are files that cannot be read.
spec fn grounded(files: Seq<FileView>, tasks: Seq<TaskView>) -> bool {
    forall|i: int|
        0 <= i < tasks.len() ==> (#[trigger] tasks[i] matches TaskView::Fail { error }
            ==> unreadable(files, error))
}

proof fn apply_all_is_grounded(files: Seq<FileView>, names: Seq<Seq<char>>, batch: u32)
    ensures
        grounded(files, apply_all(files, names, batch)),
    decreases names.len(),
{
    if names.len() > 0 {
        apply_all_is_grounded(files, names.drop_last(), batch);
        let a = apply_all(files, names.drop_last(), batch);
        let b = apply_tasks(files, names.last(), batch);
        assert forall|i: int| 0 <= i < (a + b).len() implies (
        #[trigger] (a + b)[i] matches TaskView::Fail { error } ==> unreadable(files, error)) by {
            if i < a.len() {
                assert((a + b)[i] == a[i]);
            } else {
                assert((a + b)[i] == b[i - a.len()]);
            }
        }
    }
}

proof fn rollback_all_is_grounded(files: Seq<FileView>, names: Seq<Seq<char>>)
    ensures
        grounded(files, rollback_all(files, names)),
    decreases names.len(),
{
    if names.len() > 0 {
        rollback_all_is_grounded(files, names.drop_last());
        let a = rollback_all(files, names.drop_last());
        let b = rollback_tasks(files, names.last());
        assert forall|i: int| 0 <= i < (a + b).len() implies (
        #[trigger] (a + b)[i] matches TaskView::Fail { error } ==> unreadable(files, error)) by {
            if i < a.len() {
                assert((a + b)[i] == a[i]);
            } else {
                assert((a + b)[i] == b[i - a.len()]);
                assert(b[i - a.len()] is Fail ==> file_text(
                    files,
                    down_path(names.last()),
                ) is Err);
            }
        }
    }
}

proof fn drop_tasks_do_not_fail(tables: Seq<Seq<char>>)
    ensures
        forall|i: int|
            0 <= i < drop_tasks(tables).len() ==> !(#[trigger] drop_tasks(tables)[i] is Fail),
    decreases tables.len(),
{
    if tables.len() > 0 {
        drop_tasks_do_not_fail(tables.drop_last());
    }
}

proof fn effect_is_grounded(files: Seq<FileView>, t: TaskView, reply: ReplyView)
    ensures
        effect(files, t, reply) matches Effect::Then(next) ==> grounded(files, next),
{
    match (t, reply) {
        (TaskView::PlanBatch { names }, ReplyView::Markers(records)) => {
            apply_all_is_grounded(files, names, (top_batch(records) + 1) as u32);
        },
        (TaskView::PlanDown { steps }, ReplyView::Markers(records)) => {
            rollback_all_is_grounded(files, to_roll_back(records, steps));
        },
        (TaskView::PlanDownAll, ReplyView::Markers(records)) => {
            rollback_all_is_grounded(files, latest_first(records));
        },
        (TaskView::PlanFresh, ReplyView::Tables(tables)) => {
            drop_tasks_do_not_fail(listed(tables));
        },
        _ => {},
    }
}

/// What the last reply of a run that failed shows.
pub open spec fn is_cause(
    files: Seq<FileView>,
    task: TaskView,
    reply: ReplyView,
    error: ErrorView,
) -> bool {
    match reply {
        // The request was refused.
        ReplyView::Failed(cause) => error == match task {
            TaskView::Statement { direction, name, number, sql } => statement_error(
                direction,
                name,
                number,
                sql,
                cause,
            ),
            _ => ErrorView::Database(cause),
        },
        _ => {
            // A table that the migration defines is missing.
            ||| task matches TaskView::Verify { name, expected } && reply
                matches ReplyView::Tables(tables) && {
                let missing = missing_from(expected, listed(tables));
                missing.len() > 0 && error == (ErrorView::Verification { name, expected, missing })
            }
            // The file that comes next cannot be read.
            ||| unreadable(files, error)
        },
    }
}

proof fn cause_of_failure(run: RunView, replies: Seq<ReplyView>)
    requires
        grounded(run.files, run.tasks),
        accepted(run, replies),
        replies.len() > 0,
        played(run, replies) matches ProgressView::Finished(Err(_)),
    ensures
        performed(run, replies).len() > 0,
        is_cause(
            run.files,
            performed(run, replies).last(),
            replies.last(),
            played(run, replies)->Finished_0->Err_0,
        ),
    decreases replies.len(),
{
    let t = run.tasks[0];
    let reply = replies.first();
    effect_is_grounded(run.files, t, reply);
    if let Effect::Then(next) = effect(run.files, t, reply) {
        let ahead = next + run.tasks.drop_first();
        assert forall|i: int| 0 <= i < ahead.len() implies (
        #[trigger] ahead[i] matches TaskView::Fail { error } ==> unreadable(run.files, error)) by {
            if i < next.len() {
                assert(ahead[i] == next[i]);
            } else {
                assert(ahead[i] == run.tasks[i - next.len() + 1]);
            }
        }
        if let ProgressView::Waiting(now) = run.resumed(reply) {
            let rest = replies.drop_first();
            if rest.len() > 0 {
                cause_of_failure(now, rest);
                assert(performed(run, replies).last() == performed(now, rest).last());
            }
        } else {
            assert(ahead[0] is Fail);
        }
    }
}

/// A run fails for a reason: its last request was refused, or the tables that it
/// brought lack one that the migration defines, or the file that comes next cannot be
/// read. The error says which.
pub proof fn an_error_has_a_cause(run: RunView, replies: Seq<ReplyView>)
    requires
        is_command(run.tasks),
        accepted(run, replies),
        played(run, replies) matches ProgressView::Finished(Err(_)),
    ensures
        replies.len() > 0,
        performed(run, replies).len() > 0,
        is_cause(
            run.files,
            performed(run, replies).last(),
            replies.last(),
            played(run, replies)->Finished_0->Err_0,
        ),
{
    cause_of_failure(run, replies);
}

/// Whether the `up` file of every migration can be read.
pub open spec fn has_all_ups(files: Seq<FileView>) -> bool {
    forall|name: Seq<char>| #[trigger]
        migration_names(files).contains(name) ==> file_text(files, up_path(name)) is Ok
}

/// Whether the tasks ahead read only `up` files of migrations, and none of them is to
/// fail.
spec fn sound(files: Seq<FileView>, tasks: Seq<TaskView>) -> bool {
    forall|i: int| 0 <= i < tasks.len() ==> #[trigger] is_sound(files, tasks[i])
}

spec fn is_sound(files: Seq<FileView>, t: TaskView) -> bool {
    match t {
        TaskView::Fail { .. } => false,
        TaskView::PlanDown { .. } => false,
        TaskView::PlanDownAll => false,
        TaskView::PlanRefresh => false,
        TaskView::PlanBatch { names } => forall|n: Seq<char>| #[trigger]
            names.contains(n) ==> migration_names(files).contains(n),
        _ => true,
    }
}

proof fn sound_concat(files: Seq<FileView>, a: Seq<TaskView>, b: Seq<TaskView>)
    requires
        sound(files, a),
        sound(files, b),
    ensures
        sound(files, a + b),
{
    assert forall|i: int| 0 <= i < (a + b).len() implies #[trigger] is_sound(files, (a + b)[i]) by {
        if i < a.len() {
            assert(is_sound(files, a[i]));
        } else {
            assert(is_sound(files, b[i - a.len()]));
        }
    }
}

proof fn apply_all_is_sound(files: Seq<FileView>, names: Seq<Seq<char>>, batch: u32)
    requires
        has_all_ups(files),
        forall|n: Seq<char>| #[trigger] names.contains(n) ==> migration_names(files).contains(n),
    ensures
        sound(files, apply_all(files, names, batch)),
    decreases names.len(),
{
    if names.len() > 0 {
        let init = names.drop_last();
        let name = names.last();
        assert(names[names.len() - 1] == name);
        assert(names.contains(name));
        assert forall|n: Seq<char>| #[trigger] init.contains(n) implies migration_names(
            files,
        ).contains(n) by {
            assert(names[init.index_of(n)] == n);
            assert(names.contains(n));
        }
        apply_all_is_sound(files, init, batch);
        sound_concat(files, apply_all(files, init, batch), apply_tasks(files, name, batch));
    }
}

proof fn drop_tasks_are_sound(files: Seq<FileView>, tables: Seq<Seq<char>>)
    ensures
        sound(files, drop_tasks(tables)),
    decreases tables.len(),
{
    if tables.len() > 0 {
        drop_tasks_are_sound(files, tables.drop_last());
        let a = drop_tasks(tables.drop_last());
        let all = drop_tasks(tables);
        assert forall|i: int| 0 <= i < all.len() implies #[trigger] is_sound(files, all[i]) by {
            if i < a.len() {
                assert(is_sound(files, a[i]));
            }
        }
    }
}

proof fn effect_is_sound(files: Seq<FileView>, t: TaskView, reply: ReplyView)
    requires
        has_all_ups(files),
        is_sound(files, t),
    ensures
        effect(files, t, reply) matches Effect::Then(next) ==> sound(files, next),
{
    match (t, reply) {
        (TaskView::PlanUp { steps }, ReplyView::Markers(records)) => {
            let found = pending(files, records);
            let names = limited(found, steps);
            assert forall|n: Seq<char>| #[trigger] names.contains(n) implies migration_names(
                files,
            ).contains(n) by {
                let k = names.index_of(n);
                assert(found[k] == n);
                assert(found.contains(n));
                migration_names(files).lemma_filter_contains_rev(
                    |n: Seq<char>| !record_names(records).contains(n),
                    n,
                );
            }
        },
        (TaskView::PlanBatch { names }, ReplyView::Markers(records)) => {
            apply_all_is_sound(files, names, (top_batch(records) + 1) as u32);
        },
        (TaskView::PlanFresh, ReplyView::Tables(tables)) => {
            drop_tasks_are_sound(files, listed(tables));
            let a = drop_tasks(listed(tables));
            let clear = seq![TaskView::ClearMarkers];
            sound_concat(files, a, clear);
            assert(a.push(TaskView::ClearMarkers) =~= a + clear);
            sound_concat(files, a + clear, up_tasks(None));
        },
        _ => {},
    }
}

/// Whether the reply to a task is bad news: the request was refused, or a table that
/// should be there is not.
pub open spec fn is_trouble(task: TaskView, reply: ReplyView) -> bool {
    ||| reply is Failed
    ||| task matches TaskView::Verify { expected, .. } && reply matches ReplyView::Tables(tables)
        && missing_from(expected, listed(tables)).len() > 0
}

proof fn failure_is_trouble(run: RunView, replies: Seq<ReplyView>)
    requires
        has_all_ups(run.files),
        sound(run.files, run.tasks),
        accepted(run, replies),
        replies.len() > 0,
        played(run, replies) matches ProgressView::Finished(Err(_)),
    ensures
        performed(run, replies).len() > 0,
        is_trouble(performed(run, replies).last(), replies.last()),
    decreases replies.len(),
{
    let t = run.tasks[0];
    let reply = replies.first();
    assert(is_sound(run.files, t));
    effect_is_sound(run.files, t, reply);
    if let Effect::Then(next) = effect(run.files, t, reply) {
        let rest = run.tasks.drop_first();
        assert forall|i: int| 0 <= i < rest.len() implies #[trigger] is_sound(
            run.files,
            rest[i],
        ) by {
            assert(is_sound(run.files, run.tasks[i + 1]));
        }
        sound_concat(run.files, next, rest);
        let ahead = next + rest;
        if ahead.len() > 0 {
            assert(is_sound(run.files, ahead[0]));
        }
        if let ProgressView::Waiting(now) = run.resumed(reply) {
            let later = replies.drop_first();
            if later.len() > 0 {
                failure_is_trouble(now, later);
                assert(performed(run, replies).last() == performed(now, later).last());
            }
        }
    }
}

/// If all `up` files are there, an `up` or a `fresh` fails only because of the database:
/// its last request was refused, or did not find a table that a migration defines.
pub proof fn up_fails_only_for_the_database(run: RunView, replies: Seq<ReplyView>)
    requires
        (exists|steps: Option<u32>| run.tasks == #[trigger] up_tasks(steps)) || run.tasks == seq![
            TaskView::PlanFresh,
        ],
        has_all_ups(run.files),
        accepted(run, replies),
        played(run, replies) matches ProgressView::Finished(Err(_)),
    ensures
        replies.len() > 0,
        performed(run, replies).len() > 0,
        is_trouble(performed(run, replies).last(), replies.last()),
{
    failure_is_trouble(run, replies);
}

/// If all `up` files are there and the database makes no trouble, an `up` ends well when
/// the tasks of its plan are done.
pub proof fn up_ends_well(files: Seq<FileView>, steps: Option<u32>, replies: Seq<ReplyView>)
    requires
        has_all_ups(files),
        accepted(RunView { files, tasks: up_tasks(steps) }, replies),
        replies.len() == up_plan(files, steps, replies).len(),
        forall|i: int|
            0 <= i < replies.len() ==> !is_trouble(
                performed(RunView { files, tasks: up_tasks(steps) }, replies)[i],
                #[trigger] replies[i],
            ),
    ensures
        played(RunView { files, tasks: up_tasks(steps) }, replies) == ProgressView::Finished(
            Ok(ReportView::Done),
        ),
{
    let run = RunView { files, tasks: up_tasks(steps) };
    let done = performed(run, replies);
    up_follows_its_plan(files, steps, replies);
    match played(run, replies) {
        ProgressView::Waiting(now) => {
            now_waits(run, replies);
            assert((done + now.tasks).len() == done.len() + now.tasks.len());
        },
        ProgressView::Finished(Err(_)) => {
            up_fails_only_for_the_database(run, replies);
            assert(replies[replies.len() - 1] == replies.last());
        },
        _ => {},
    }
}

/// Whether two sets of files hold the same migrations with the same forward changes.
pub open spec fn same_ups(a: Seq<FileView>, b: Seq<FileView>) -> bool {
    &&& migration_names(a) == migration_names(b)
    &&& forall|name: Seq<char>| #[trigger]
        file_text(a, up_path(name)) == file_text(b, up_path(name))
}

spec fn plans_rollback(t: TaskView) -> bool {
    t is PlanDown || t is PlanDownAll || t is PlanRefresh
}

/// Whether no rollback is ahead.
spec fn rolls_back_nothing(tasks: Seq<TaskView>) -> bool {
    forall|i: int|
        0 <= i < tasks.len() ==> !plans_rollback(#[trigger] tasks[i])
}

proof fn apply_all_of_same_ups(
    a: Seq<FileView>,
    b: Seq<FileView>,
    names: Seq<Seq<char>>,
    batch: u32,
)
    requires
        same_ups(a, b),
    ensures
        apply_all(a, names, batch) == apply_all(b, names, batch),
        rolls_back_nothing(apply_all(a, names, batch)),
    decreases names.len(),
{
    if names.len() > 0 {
        apply_all_of_same_ups(a, b, names.drop_last(), batch);
        assert(file_text(a, up_path(names.last())) == file_text(b, up_path(names.last())));
    }
}

proof fn drop_tasks_roll_back_nothing(tables: Seq<Seq<char>>)
    ensures
        rolls_back_nothing(drop_tasks(tables)),
    decreases tables.len(),
{
    if tables.len() > 0 {
        drop_tasks_roll_back_nothing(tables.drop_last());
    }
}

proof fn effect_of_same_ups(a: Seq<FileView>, b: Seq<FileView>, t: TaskView, reply: ReplyView)
    requires
        same_ups(a, b),
        !plans_rollback(t),
    ensures
        effect(a, t, reply) == effect(b, t, reply),
        effect(a, t, reply) matches Effect::Then(next) ==> rolls_back_nothing(next),
{
    match (t, reply) {
        (TaskView::PlanBatch { names }, ReplyView::Markers(records)) => {
            apply_all_of_same_ups(a, b, names, (top_batch(records) + 1) as u32);
        },
        (TaskView::PlanFresh, ReplyView::Tables(tables)) => {
            drop_tasks_roll_back_nothing(listed(tables));
        },
        _ => {},
    }
}

proof fn runs_of_same_ups(
    a: Seq<FileView>,
    b: Seq<FileView>,
    tasks: Seq<TaskView>,
    replies: Seq<ReplyView>,
)
    requires
        same_ups(a, b),
        rolls_back_nothing(tasks),
        tasks.len() > 0,
        accepted(RunView { files: a, tasks }, replies),
    ensures
        accepted(RunView { files: b, tasks }, replies),
        performed(RunView { files: b, tasks }, replies) == performed(
            RunView { files: a, tasks },
            replies,
        ),
        match played(RunView { files: a, tasks }, replies) {
            ProgressView::Waiting(now) => played(RunView { files: b, tasks }, replies)
                == ProgressView::Waiting(RunView { files: b, tasks: now.tasks }),
            ProgressView::Finished(result) => played(RunView { files: b, tasks }, replies)
                == ProgressView::Finished(result),
        },
    decreases replies.len(),
{
    let run = RunView { files: a, tasks };
    if replies.len() > 0 {
        let reply = replies.first();
        effect_of_same_ups(a, b, tasks[0], reply);
        if let Effect::Then(next) = effect(a, tasks[0], reply) {
            let ahead = next + tasks.drop_first();
            assert forall|i: int| 0 <= i < ahead.len() implies !plans_rollback(
                #[trigger] ahead[i],
            ) by {
                if i < next.len() {
                    assert(ahead[i] == next[i]);
                } else {
                    assert(ahead[i] == tasks[i - next.len() + 1]);
                }
            }
            if run.resumed(reply) is Waiting {
                runs_of_same_ups(a, b, ahead, replies.drop_first());
            }
        }
    }
}

/// Only rollbacks read the `down` files. An `up`, a `fresh` or a `status` does the same
/// with any others, or with none, as long as the migrations are the same.
pub proof fn only_rollbacks_read_down_files(
    a: Seq<FileView>,
    b: Seq<FileView>,
    tasks: Seq<TaskView>,
    replies: Seq<ReplyView>,
)
    requires
        same_ups(a, b),
        (exists|steps: Option<u32>| tasks == #[trigger] up_tasks(steps)) || tasks == seq![
            TaskView::PlanFresh,
        ] || tasks == seq![TaskView::DefineMarkers, TaskView::Report],
        accepted(RunView { files: a, tasks }, replies),
    ensures
        accepted(RunView { files: b, tasks }, replies),
        asked(RunView { files: b, tasks }, replies) == asked(RunView { files: a, tasks }, replies),
        match played(RunView { files: a, tasks }, replies) {
            ProgressView::Waiting(now) => played(RunView { files: b, tasks }, replies)
                == ProgressView::Waiting(RunView { files: b, tasks: now.tasks }),
            ProgressView::Finished(result) => played(RunView { files: b, tasks }, replies)
                == ProgressView::Finished(result),
        },
{
    runs_of_same_ups(a, b, tasks, replies);
}

/// Whether a statement stands in the file at a path.
pub open spec fn stands_in(files: Seq<FileView>, path: Seq<char>, sql: Seq<char>) -> bool {
    file_text(files, path) matches Ok(text) && statements(text).contains(sql)
}

/// Whether a statement stands in the `up` file of one of the names.
pub open spec fn stands_in_up_files(
    files: Seq<FileView>,
    names: Seq<Seq<char>>,
    sql: Seq<char>,
) -> bool {
    exists|name: Seq<char>|
        names.contains(name) && #[trigger] stands_in(files, up_path(name), sql)
}

/// Whether a statement stands in the `down` file of one of the names.
pub open spec fn stands_in_down_files(
    files: Seq<FileView>,
    names: Seq<Seq<char>>,
    sql: Seq<char>,
) -> bool {
    exists|name: Seq<char>|
        names.contains(name) && #[trigger] stands_in(files, down_path(name), sql)
}

proof fn statements_of_apply_all(files: Seq<FileView>, names: Seq<Seq<char>>, batch: u32, i: int)
    requires
        0 <= i < apply_all(files, names, batch).len(),
    ensures
        match apply_all(files, names, batch)[i] {
            TaskView::Statement { name, sql, .. } => names.contains(name) && stands_in(
                files,
                up_path(name),
                sql,
            ),
            TaskView::Mark { name, .. } => names.contains(name),
            TaskView::Verify { .. } => true,
            TaskView::Fail { .. } => true,
            _ => false,
        },
    decreases names.len(),
{
    if names.len() > 0 {
        let init = names.drop_last();
        let name = names.last();
        let a = apply_all(files, init, batch);
        let b = apply_tasks(files, name, batch);
        assert(names[names.len() - 1] == name);
        if i < a.len() {
            statements_of_apply_all(files, init, batch, i);
            assert forall|n: Seq<char>| #[trigger] init.contains(n) implies names.contains(n) by {
                assert(names[init.index_of(n)] == n);
            }
        } else {
            let j = i - a.len();
            assert(apply_all(files, names, batch)[i] == b[j]);
            if let Ok(text) = file_text(files, up_path(name)) {
                if j < statements(text).len() {
                    assert(statements(text).contains(statements(text)[j]));
                }
            }
        }
    }
}

proof fn statements_of_rollback_all(files: Seq<FileView>, names: Seq<Seq<char>>, i: int)
    requires
        0 <= i < rollback_all(files, names).len(),
    ensures
        match rollback_all(files, names)[i] {
            TaskView::Statement { name, sql, .. } => names.contains(name) && stands_in(
                files,
                down_path(name),
                sql,
            ),
            TaskView::Unmark { name } => names.contains(name),
            TaskView::Fail { .. } => true,
            _ => false,
        },
    decreases names.len(),
{
    if names.len() > 0 {
        let init = names.drop_last();
        let name = names.last();
        let a = rollback_all(files, init);
        let b = rollback_tasks(files, name);
        assert(names[names.len() - 1] == name);
        if i < a.len() {
            statements_of_rollback_all(files, init, i);
            assert forall|n: Seq<char>| #[trigger] init.contains(n) implies names.contains(n) by {
                assert(names[init.index_of(n)] == n);
            }
        } else {
            let j = i - a.len();
            assert(rollback_all(files, names)[i] == b[j]);
            if let Ok(text) = file_text(files, down_path(name)) {
                if j < statements(text).len() {
                    assert(statements(text).contains(statements(text)[j]));
                }
            }
        }
    }
}

/// An `up` applies pending migrations and does nothing else: it runs only statements of
/// their `up` files and marks only them.
pub proof fn up_runs_only_what_is_pending(
    files: Seq<FileView>,
    steps: Option<u32>,
    replies: Seq<ReplyView>,
    i: int,
)
    requires
        accepted(RunView { files, tasks: up_tasks(steps) }, replies),
        0 <= i < replies.len(),
    ensures
        match asked(RunView { files, tasks: up_tasks(steps) }, replies)[i] {
            RequestView::DefineMarkers => true,
            RequestView::SelectMarkers => true,
            RequestView::ListTables => true,
            RequestView::Execute { sql } => replies[1] is Markers && stands_in_up_files(
                files,
                limited(pending(files, replies[1]->Markers_0), steps),
                sql,
            ),
            RequestView::InsertMarker { name, .. } => replies[1] is Markers && limited(
                pending(files, replies[1]->Markers_0),
                steps,
            ).contains(name),
            _ => false,
        },
{
    let run = RunView { files, tasks: up_tasks(steps) };
    let plan = up_plan(files, steps, replies);
    up_follows_its_plan(files, steps, replies);
    each_reply(run, replies, i);
    assert(performed(run, replies)[i] == plan[i]);
    assert(asked(run, replies)[i] == plan[i].request());
    let head = up_tasks(steps);
    if i >= 3 {
        assert(replies[1] is Markers && replies[2] is Markers);
        let names = limited(pending(files, replies[1]->Markers_0), steps);
        let batch = (top_batch(replies[2]->Markers_0) + 1) as u32;
        assert(plan[i] == apply_all(files, names, batch)[i - 3]);
        statements_of_apply_all(files, names, batch, i - 3);
        match plan[i] {
            TaskView::Statement { name, sql, .. } => {
                assert(names.contains(name) && stands_in(files, up_path(name), sql));
                assert(stands_in_up_files(files, names, sql));
            },
            _ => {},
        }
    } else if i == 2 {
        assert(plan[2] is PlanBatch);
    } else {
        assert(plan[i] == head[i]);
        assert(head[0] is DefineMarkers && head[1] is PlanUp);
    }
}

/// A `down` runs only statements of the `down` files of the migrations that it rolls
/// back, and unmarks only these migrations. It leaves everything else alone.
pub proof fn down_runs_only_down_files(
    files: Seq<FileView>,
    steps: Option<u32>,
    replies: Seq<ReplyView>,
    i: int,
)
    requires
        accepted(RunView { files, tasks: down_tasks(steps) }, replies),
        0 <= i < replies.len(),
    ensures
        match asked(RunView { files, tasks: down_tasks(steps) }, replies)[i] {
            RequestView::DefineMarkers => true,
            RequestView::SelectMarkers => true,
            RequestView::Execute { sql } => replies[1] is Markers && stands_in_down_files(
                files,
                to_roll_back(replies[1]->Markers_0, steps),
                sql,
            ),
            RequestView::DeleteMarker { name } => replies[1] is Markers && to_roll_back(
                replies[1]->Markers_0,
                steps,
            ).contains(name),
            _ => false,
        },
{
    let run = RunView { files, tasks: down_tasks(steps) };
    let plan = down_plan(files, steps, replies);
    down_follows_its_plan(files, steps, replies);
    each_reply(run, replies, i);
    assert(performed(run, replies)[i] == plan[i]);
    assert(asked(run, replies)[i] == plan[i].request());
    if i >= 2 {
        assert(replies[1] is Markers);
        let names = to_roll_back(replies[1]->Markers_0, steps);
        assert(plan[i] == rollback_all(files, names)[i - 2]);
        statements_of_rollback_all(files, names, i - 2);
        match plan[i] {
            TaskView::Statement { name, sql, .. } => {
                assert(names.contains(name) && stands_in(files, down_path(name), sql));
                assert(stands_in_down_files(files, names, sql));
            },
            _ => {},
        }
    } else {
        let head = down_tasks(steps);
        assert(plan[i] == head[i]);
        assert(head[0] is DefineMarkers && head[1] is PlanDown);
    }
}

} // verus!
