//! What holds of every run, whatever the database replies.

use vstd::prelude::*;

use crate::conversation::{
    accepted, asked, each_reply, is_plain, performed, performed_len, plain_tasks_in_order, played,
};
use crate::error::ErrorView;
use crate::files::{file_text, migration_names, migration_names_are_exact, FileView};
use crate::history::{
    latest_first, limited, pending, record_names, statuses, to_roll_back, top_batch, RecordView,
};
use crate::migrator::{
    effect, started, statement_error, Effect, ProgressView, ReportView, RunView,
};
use crate::plan::{
    apply_all, apply_tasks, down_all_tasks, down_path, down_tasks, drop_tasks, plan_batch,
    plan_down, plan_down_all, plan_fresh, plan_refresh, plan_up, rollback_all, rollback_tasks,
    statement_tasks, up_path, up_tasks, verify_tasks, Direction, TaskView,
};
use crate::protocol::{listed, ReplyView, RequestView};
use crate::surql::statements;
use crate::tables::{defined_tables, missing_from, nothing_is_missing_if_all_exist};
use crate::text::{before, before_is_irreflexive};

verus! {

/// A refused request ends the run at once, with an error that holds the cause: for a
/// statement of a migration file the error names the migration, the number of the
/// statement and its text.
pub proof fn a_refused_request_ends_the_run(run: RunView, cause: Seq<char>)
    requires
        run.waits(),
    ensures
        run.resumed(ReplyView::Failed(cause)) == ProgressView::Finished(
            Err(
                match run.tasks[0] {
                    TaskView::Statement { direction, name, number, sql } => statement_error(
                        direction,
                        name,
                        number,
                        sql,
                        cause,
                    ),
                    _ => ErrorView::Database(cause),
                },
            ),
        ),
{
}

proof fn apply_all_is_plain(files: Seq<FileView>, names: Seq<Seq<char>>, batch: u32)
    ensures
        forall|i: int|
            0 <= i < apply_all(files, names, batch).len() ==> is_plain(
                #[trigger] apply_all(files, names, batch)[i],
            ) || apply_all(files, names, batch)[i] is Fail,
    decreases names.len(),
{
    if names.len() > 0 {
        apply_all_is_plain(files, names.drop_last(), batch);
    }
}

proof fn rollback_all_is_plain(files: Seq<FileView>, names: Seq<Seq<char>>)
    ensures
        forall|i: int|
            0 <= i < rollback_all(files, names).len() ==> is_plain(
                #[trigger] rollback_all(files, names)[i],
            ) || rollback_all(files, names)[i] is Fail,
    decreases names.len(),
{
    if names.len() > 0 {
        rollback_all_is_plain(files, names.drop_last());
    }
}

/// Whether a run does the tasks of a plan in order, and ends well only when it has
/// done them all. Then it has nothing to report but that.
pub open spec fn follows(run: RunView, replies: Seq<ReplyView>, plan: Seq<TaskView>) -> bool {
    &&& performed(run, replies).len() == replies.len()
    &&& performed(run, replies).is_prefix_of(plan)
    &&& match played(run, replies) {
        ProgressView::Waiting(now) => now.files == run.files && performed(run, replies) + now.tasks
            == plan,
        ProgressView::Finished(Ok(report)) => report is Done && performed(run, replies) == plan,
        ProgressView::Finished(Err(_)) => replies.len() > 0,
    }
}

/// The replies from number `k` on.
pub open spec fn later(replies: Seq<ReplyView>, k: int) -> Seq<ReplyView> {
    if k < replies.len() {
        replies.skip(k)
    } else {
        Seq::empty()
    }
}

/// What `up` does, given the replies: it looks at the markers, and if something is
/// pending looks at them once more and applies the first `steps` pending migrations.
pub open spec fn up_plan(
    files: Seq<FileView>,
    steps: Option<u32>,
    replies: Seq<ReplyView>,
) -> Seq<TaskView> {
    if replies.len() <= 1 || !(replies[1] is Markers) {
        up_tasks(steps)
    } else {
        let found = pending(files, replies[1]->Markers_0);
        let names = limited(found, steps);
        if found.len() == 0 {
            up_tasks(steps)
        } else if replies.len() <= 2 || !(replies[2] is Markers) {
            up_tasks(steps).push(TaskView::PlanBatch { names })
        } else {
            up_tasks(steps).push(TaskView::PlanBatch { names }) + plan_batch(
                files,
                names,
                replies[2]->Markers_0,
            )
        }
    }
}

/// `up` does the tasks of its plan in order. It ends well only when it has done them
/// all.
pub proof fn up_follows_its_plan(
    files: Seq<FileView>,
    steps: Option<u32>,
    replies: Seq<ReplyView>,
)
    requires
        accepted(RunView { files, tasks: up_tasks(steps) }, replies),
    ensures
        follows(
            RunView { files, tasks: up_tasks(steps) },
            replies,
            up_plan(files, steps, replies),
        ),
{
    let run = RunView { files, tasks: up_tasks(steps) };
    let plan = up_plan(files, steps, replies);
    performed_len(run, replies);
    if replies.len() == 0 {
        assert(performed(run, replies) + run.tasks =~= plan);
    } else if replies[0] is Failed {
        assert(performed(run, replies) =~= seq![run.tasks[0]]);
    } else {
        let run1 = RunView { files, tasks: seq![TaskView::PlanUp { steps }] };
        assert(Seq::<TaskView>::empty() + run.tasks.drop_first() =~= run1.tasks);
        assert(run.resumed(replies[0]) == ProgressView::Waiting(run1));
        let replies1 = replies.drop_first();
        assert(accepted(run1, replies1));
        assert(played(run, replies) == played(run1, replies1));
        assert(performed(run, replies) == seq![run.tasks[0]] + performed(run1, replies1));
        if replies1.len() == 0 {
            assert(performed(run, replies) + run1.tasks =~= plan);
        } else if replies1[0] is Failed {
            assert(performed(run, replies) =~= run.tasks);
            assert(replies[1] == replies1[0]);
            assert(plan == run.tasks);
        } else {
            assert(replies[1] == replies1[0]);
            let found = pending(files, replies[1]->Markers_0);
            let names = limited(found, steps);
            let next = plan_up(files, steps, replies[1]->Markers_0);
            assert(next + run1.tasks.drop_first() =~= next);
            if found.len() == 0 {
                assert(performed(run, replies) =~= run.tasks);
            } else {
                let run2 = RunView { files, tasks: seq![TaskView::PlanBatch { names }] };
                assert(run1.accepts(replies1.first()));
                assert(effect(files, run1.tasks[0], replies[1]) == Effect::Then(next));
                assert(next + run1.tasks.drop_first() =~= run2.tasks);
                assert(run1.resumed(replies[1]) == ProgressView::Waiting(run2));
                let replies2 = replies1.drop_first();
                assert(accepted(run2, replies2));
                assert(played(run, replies) == played(run2, replies2));
                let first2 = run.tasks;
                assert(performed(run, replies) =~= first2 + performed(run2, replies2));
                if replies2.len() == 0 {
                    assert(performed(run, replies) + run2.tasks =~= plan);
                } else if replies2[0] is Failed {
                    assert(replies[2] == replies2[0]);
                    assert(performed(run, replies) =~= plan);
                } else {
                    assert(replies[2] == replies2[0]);
                    let ts = plan_batch(files, names, replies[2]->Markers_0);
                    assert(ts + run2.tasks.drop_first() =~= ts);
                    let first3 = first2.push(TaskView::PlanBatch { names });
                    assert(plan == first3 + ts);
                    match run2.resumed(replies[2]) {
                        ProgressView::Finished(_) => {
                            assert(performed(run, replies) =~= first3);
                            if ts.len() == 0 {
                                assert(plan =~= first3);
                            }
                        },
                        ProgressView::Waiting(run3) => {
                            let replies3 = replies2.drop_first();
                            assert(run2.accepts(replies2.first()));
                            assert(accepted(run3, replies3));
                            assert(played(run, replies) == played(run3, replies3));
                            assert(run3.tasks == ts);
                            assert(performed(run, replies) =~= first3 + performed(run3, replies3));
                            apply_all_is_plain(
                                files,
                                names,
                                (top_batch(replies[2]->Markers_0) + 1) as u32,
                            );
                            assert(ts + Seq::<TaskView>::empty() =~= ts);
                            plain_tasks_in_order(run3, ts, Seq::empty(), replies3);
                            let n = replies3.len() as int;
                            if n <= ts.len() {
                                assert(ts.take(n) + (ts.skip(n) + Seq::<TaskView>::empty()) =~= ts);
                                assert((first3 + ts.take(n)) + (ts.skip(n)
                                    + Seq::<TaskView>::empty()) =~= plan);
                                if n == ts.len() {
                                    assert(ts.take(n) =~= ts);
                                }
                            } else {
                                let over = RunView { files, tasks: Seq::<TaskView>::empty() };
                                assert(accepted(over, replies3.skip(ts.len() as int)));
                                assert(over.waits());
                                assert(false);
                            }
                        },
                    }
                }
            }
        }
    }
    let done = performed(run, replies);
    assert(done.len() <= plan.len());
    assert(done =~= plan.subrange(0, done.len() as int));
}

/// What `down` does, given the replies: it looks at the markers and rolls back the
/// `steps` that were applied last.
pub open spec fn down_plan(
    files: Seq<FileView>,
    steps: Option<u32>,
    replies: Seq<ReplyView>,
) -> Seq<TaskView> {
    if replies.len() <= 1 || !(replies[1] is Markers) {
        down_tasks(steps)
    } else {
        down_tasks(steps) + plan_down(files, steps, replies[1]->Markers_0)
    }
}

/// What a rollback of everything does, given the replies: it looks at the markers and
/// rolls back all of them.
pub open spec fn down_all_plan(files: Seq<FileView>, replies: Seq<ReplyView>) -> Seq<TaskView> {
    if replies.len() <= 1 || !(replies[1] is Markers) {
        down_all_tasks()
    } else {
        down_all_tasks() + plan_down_all(files, replies[1]->Markers_0)
    }
}

spec fn looks(t: TaskView) -> Seq<TaskView> {
    seq![TaskView::DefineMarkers, t]
}

spec fn rolled_back(t: TaskView, records: Seq<RecordView>) -> Seq<Seq<char>> {
    match t {
        TaskView::PlanDown { steps } => to_roll_back(records, steps),
        _ => latest_first(records),
    }
}

spec fn rollback_plan(
    files: Seq<FileView>,
    t: TaskView,
    replies: Seq<ReplyView>,
) -> Seq<TaskView> {
    if replies.len() <= 1 || !(replies[1] is Markers) {
        looks(t)
    } else {
        looks(t) + rollback_all(files, rolled_back(t, replies[1]->Markers_0))
    }
}

/// Whether a run that begins with the tasks of a plan does them in order, and goes on with
/// the others after that.
spec fn begins_with(
    run: RunView,
    replies: Seq<ReplyView>,
    plan: Seq<TaskView>,
    rest: Seq<TaskView>,
) -> bool {
    let n = plan.len() as int;
    let done = performed(run, replies);
    let now = RunView { files: run.files, tasks: rest };
    &&& replies.len() <= n ==> {
        &&& done.is_prefix_of(plan)
        &&& match played(run, replies) {
            ProgressView::Waiting(mid) => mid.files == run.files && done + mid.tasks == plan + rest,
            ProgressView::Finished(Ok(_)) => done == plan && started(run.files, rest) == played(
                run,
                replies,
            ),
            ProgressView::Finished(Err(_)) => replies.len() > 0,
        }
    }
    &&& replies.len() > n ==> {
        &&& accepted(now, replies.skip(n))
        &&& played(run, replies) == played(now, replies.skip(n))
        &&& done == plan + performed(now, replies.skip(n))
    }
}

/// One more task in front, to which the reply led to no others.
proof fn begins_one_earlier(
    run: RunView,
    next: RunView,
    replies: Seq<ReplyView>,
    plan: Seq<TaskView>,
    rest: Seq<TaskView>,
)
    requires
        replies.len() > 0,
        run.resumed(replies[0]) == ProgressView::Waiting(next),
        next.files == run.files,
        begins_with(next, replies.drop_first(), plan, rest),
    ensures
        begins_with(run, replies, seq![run.tasks[0]] + plan, rest),
{
    let head = seq![run.tasks[0]];
    let whole = head + plan;
    let later = replies.drop_first();
    let n = plan.len() as int;
    let done = performed(next, later);
    assert(performed(run, replies) == head + done);
    if later.len() <= n {
        assert(done =~= plan.subrange(0, done.len() as int));
        assert(head + done =~= whole.subrange(0, (head + done).len() as int));
        if let ProgressView::Waiting(mid) = played(next, later) {
            assert((head + done) + mid.tasks =~= head + (done + mid.tasks));
            assert(head + (plan + rest) =~= whole + rest);
        }
    } else {
        let now = RunView { files: run.files, tasks: rest };
        assert(later.skip(n) =~= replies.skip(n + 1));
        assert(head + (plan + performed(now, later.skip(n))) =~= whole + performed(
            now,
            later.skip(n),
        ));
    }
}

/// Plain tasks, with others after them.
proof fn begins_with_plain(
    run: RunView,
    ts: Seq<TaskView>,
    rest: Seq<TaskView>,
    replies: Seq<ReplyView>,
)
    requires
        run.tasks == ts + rest,
        forall|i: int| 0 <= i < ts.len() ==> is_plain(#[trigger] ts[i]) || ts[i] is Fail,
        accepted(run, replies),
    ensures
        begins_with(run, replies, ts, rest),
{
    plain_tasks_in_order(run, ts, rest, replies);
    let k = replies.len() as int;
    if k <= ts.len() {
        assert(ts.take(k) =~= ts.subrange(0, k));
        assert(ts.take(k) + (ts.skip(k) + rest) =~= ts + rest);
        if k == ts.len() {
            assert(ts.take(k) =~= ts);
        }
        performed_len(run, replies);
    }
}

/// A look at the markers and the rollbacks that it leads to.
proof fn look_then(files: Seq<FileView>, t: TaskView, rest: Seq<TaskView>, replies: Seq<ReplyView>)
    requires
        t is PlanDown || t is PlanDownAll,
        replies.len() > 0,
        replies[0] is Markers,
        accepted(RunView { files, tasks: seq![t] + rest }, replies),
    ensures
        begins_with(
            RunView { files, tasks: seq![t] + rest },
            replies,
            seq![t] + rollback_all(files, rolled_back(t, replies[0]->Markers_0)),
            rest,
        ),
{
    let run = RunView { files, tasks: seq![t] + rest };
    let records = replies[0]->Markers_0;
    let ts = rollback_all(files, rolled_back(t, records));
    assert(run.tasks[0] == t);
    assert(run.tasks.drop_first() =~= rest);
    assert(effect(files, t, replies[0]) == Effect::Then(ts));
    rollback_all_is_plain(files, rolled_back(t, records));
    match run.resumed(replies[0]) {
        ProgressView::Finished(_) => {
            let done = performed(run, replies);
            assert(done =~= seq![t]);
            assert(replies.len() == 1);
            assert(done =~= (seq![t] + ts).subrange(0, 1));
            if ts.len() == 0 {
                assert(ts + rest =~= rest);
                assert(seq![t] + ts =~= done);
            } else {
                assert((ts + rest)[0] == ts[0]);
            }
        },
        ProgressView::Waiting(next) => {
            begins_with_plain(next, ts, rest, replies.drop_first());
            begins_one_earlier(run, next, replies, ts, rest);
        },
    }
}

/// A rollback with other tasks after it.
proof fn down_then(
    files: Seq<FileView>,
    t: TaskView,
    rest: Seq<TaskView>,
    replies: Seq<ReplyView>,
)
    requires
        t is PlanDown || t is PlanDownAll,
        accepted(RunView { files, tasks: looks(t) + rest }, replies),
    ensures
        begins_with(
            RunView { files, tasks: looks(t) + rest },
            replies,
            rollback_plan(files, t, replies),
            rest,
        ),
{
    let run = RunView { files, tasks: looks(t) + rest };
    let plan = rollback_plan(files, t, replies);
    let done = performed(run, replies);
    performed_len(run, replies);
    if replies.len() == 0 {
        assert(done + run.tasks =~= plan + rest);
        assert(done =~= plan.subrange(0, 0));
    } else if replies[0] is Failed {
        assert(done =~= seq![run.tasks[0]]);
        assert(done =~= plan.subrange(0, 1));
    } else {
        let run1 = RunView { files, tasks: seq![t] + rest };
        let replies1 = replies.drop_first();
        assert(Seq::<TaskView>::empty() + run.tasks.drop_first() =~= run1.tasks);
        assert(run.resumed(replies[0]) == ProgressView::Waiting(run1));
        assert(accepted(run1, replies1));
        assert(run1.tasks[0] == t);
        if replies1.len() > 0 {
            assert(replies[1] == replies1[0]);
            assert(run1.accepts(replies1[0]));
        }
        if replies1.len() > 0 && replies1[0] is Markers {
            let ts = rollback_all(files, rolled_back(t, replies1[0]->Markers_0));
            look_then(files, t, rest, replies1);
            begins_one_earlier(run, run1, replies, seq![t] + ts, rest);
            assert(seq![run.tasks[0]] + (seq![t] + ts) =~= plan);
        } else {
            assert(begins_with(run1, replies1, seq![t], rest)) by {
                if replies1.len() == 0 {
                    assert(performed(run1, replies1) + run1.tasks =~= seq![t] + rest);
                    assert(performed(run1, replies1) =~= seq![t].subrange(0, 0));
                } else {
                    assert(performed(run1, replies1) =~= seq![t]);
                    assert(performed(run1, replies1) =~= seq![t].subrange(0, 1));
                }
            }
            begins_one_earlier(run, run1, replies, seq![t], rest);
            assert(seq![run.tasks[0]] + seq![t] =~= plan);
        }
    }
}

/// `down` does the tasks of its plan in order. It ends well only when it has done
/// them all.
pub proof fn down_follows_its_plan(
    files: Seq<FileView>,
    steps: Option<u32>,
    replies: Seq<ReplyView>,
)
    requires
        accepted(RunView { files, tasks: down_tasks(steps) }, replies),
    ensures
        follows(
            RunView { files, tasks: down_tasks(steps) },
            replies,
            down_plan(files, steps, replies),
        ),
{
    let none = Seq::<TaskView>::empty();
    let plan = down_plan(files, steps, replies);
    assert(down_tasks(steps) + none =~= down_tasks(steps));
    assert(plan + none =~= plan);
    performed_len(RunView { files, tasks: down_tasks(steps) }, replies);
    down_then(files, TaskView::PlanDown { steps }, none, replies);
    if replies.len() > plan.len() {
        let over = RunView { files, tasks: none };
        assert(accepted(over, replies.skip(plan.len() as int)));
        assert(over.waits());
    }
}

/// What `refresh` does, given the replies: it looks at the markers, rolls back everything,
/// if there are any, and applies everything.
pub open spec fn refresh_plan(files: Seq<FileView>, replies: Seq<ReplyView>) -> Seq<TaskView> {
    let first = seq![TaskView::DefineMarkers, TaskView::PlanRefresh];
    if replies.len() <= 1 || !(replies[1] is Markers) {
        first
    } else {
        let after = later(replies, 2);
        if replies[1]->Markers_0.len() > 0 {
            let down = down_all_plan(files, after);
            first + down + up_plan(files, None, later(after, down.len() as int))
        } else {
            first + up_plan(files, None, after)
        }
    }
}

/// `refresh` does the tasks of its plan in order. It ends well only when it has done
/// them all.
pub proof fn refresh_follows_its_plan(files: Seq<FileView>, replies: Seq<ReplyView>)
    requires
        accepted(
            RunView { files, tasks: seq![TaskView::DefineMarkers, TaskView::PlanRefresh] },
            replies,
        ),
    ensures
        follows(
            RunView { files, tasks: seq![TaskView::DefineMarkers, TaskView::PlanRefresh] },
            replies,
            refresh_plan(files, replies),
        ),
{
    let first = seq![TaskView::DefineMarkers, TaskView::PlanRefresh];
    let run = RunView { files, tasks: first };
    let plan = refresh_plan(files, replies);
    let done = performed(run, replies);
    performed_len(run, replies);
    if replies.len() == 0 {
        assert(done + run.tasks =~= plan);
    } else if replies[0] is Failed {
        assert(done =~= seq![run.tasks[0]]);
        assert(done =~= plan.subrange(0, 1));
    } else {
        let run1 = RunView { files, tasks: seq![TaskView::PlanRefresh] };
        assert(Seq::<TaskView>::empty() + run.tasks.drop_first() =~= run1.tasks);
        assert(run.resumed(replies[0]) == ProgressView::Waiting(run1));
        let replies1 = replies.drop_first();
        assert(accepted(run1, replies1));
        assert(played(run, replies) == played(run1, replies1));
        assert(done == seq![run.tasks[0]] + performed(run1, replies1));
        if replies1.len() == 0 {
            assert(done =~= plan.subrange(0, 1));
            assert(done + run1.tasks =~= plan);
        } else if replies1[0] is Failed {
            assert(replies[1] == replies1[0]);
            assert(done =~= first);
            assert(done =~= plan.subrange(0, 2));
        } else {
            assert(replies[1] == replies1[0]);
            assert(run1.accepts(replies1.first()));
            let records = replies[1]->Markers_0;
            let next = plan_refresh(records);
            assert(next + run1.tasks.drop_first() =~= next);
            let run2 = RunView { files, tasks: next };
            assert(next[0] == TaskView::DefineMarkers);
            assert(run1.resumed(replies[1]) == ProgressView::Waiting(run2));
            let after = replies1.drop_first();
            assert(after =~= later(replies, 2));
            assert(accepted(run2, after));
            assert(played(run, replies) == played(run2, after));
            assert(done =~= first + performed(run2, after));
            if records.len() > 0 {
                down_and_up_follow(files, after);
                let down = down_all_plan(files, after);
                let up = up_plan(files, None, later(after, down.len() as int));
                follows_after(run, run2, first, replies, after, down + up);
                assert(first + (down + up) =~= plan);
            } else {
                up_follows_its_plan(files, None, after);
                follows_after(run, run2, first, replies, after, up_plan(files, None, after));
            }
        }
    }
}

/// A run that has done some tasks and goes on as another run that follows a plan.
proof fn follows_after(
    run: RunView,
    next: RunView,
    first: Seq<TaskView>,
    replies: Seq<ReplyView>,
    after: Seq<ReplyView>,
    plan: Seq<TaskView>,
)
    requires
        follows(next, after, plan),
        run.files == next.files,
        first.len() + after.len() == replies.len(),
        first.len() > 0,
        performed(run, replies) == first + performed(next, after),
        played(run, replies) == played(next, after),
    ensures
        follows(run, replies, first + plan),
{
    let done = performed(next, after);
    assert(done =~= plan.subrange(0, done.len() as int));
    assert(first + done =~= (first + plan).subrange(0, (first + done).len() as int));
    match played(next, after) {
        ProgressView::Waiting(now) => {
            assert((first + done) + now.tasks =~= first + (done + now.tasks));
        },
        _ => {},
    }
}

/// A rollback with an `up` after it.
proof fn down_and_up_follow(files: Seq<FileView>, replies: Seq<ReplyView>)
    requires
        accepted(RunView { files, tasks: down_all_tasks() + up_tasks(None) }, replies),
    ensures
        ({
            let down = down_all_plan(files, replies);
            follows(
                RunView { files, tasks: down_all_tasks() + up_tasks(None) },
                replies,
                down + up_plan(files, None, later(replies, down.len() as int)),
            )
        }),
{
    let run = RunView { files, tasks: down_all_tasks() + up_tasks(None) };
    let down = down_all_plan(files, replies);
    let n = down.len() as int;
    let up = up_plan(files, None, later(replies, n));
    performed_len(run, replies);
    down_then(files, TaskView::PlanDownAll, up_tasks(None), replies);
    if replies.len() <= n {
        let done = performed(run, replies);
        assert(up =~= up_tasks(None));
        assert(done =~= down.subrange(0, done.len() as int));
        assert(done =~= (down + up).subrange(0, done.len() as int));
        assert(started(files, up_tasks(None)) is Waiting);
    } else {
        let next = RunView { files, tasks: up_tasks(None) };
        up_follows_its_plan(files, None, replies.skip(n));
        follows_after(run, next, down, replies, replies.skip(n), up);
    }
}

/// What `fresh` does, given the replies: it looks at the tables, removes all but the
/// table of the markers, deletes all markers and applies everything.
pub open spec fn fresh_plan(files: Seq<FileView>, replies: Seq<ReplyView>) -> Seq<TaskView> {
    let first = seq![TaskView::PlanFresh];
    if replies.len() == 0 || !(replies[0] is Tables) {
        first
    } else {
        let clear = first + drop_tasks(listed(replies[0]->Tables_0)).push(TaskView::ClearMarkers);
        clear + up_plan(files, None, later(replies, clear.len() as int))
    }
}

proof fn drop_tasks_are_plain(tables: Seq<Seq<char>>)
    ensures
        forall|i: int|
            0 <= i < drop_tasks(tables).len() ==> #[trigger] drop_tasks(tables)[i] is DropTable,
    decreases tables.len(),
{
    if tables.len() > 0 {
        drop_tasks_are_plain(tables.drop_last());
    }
}

/// `fresh` does the tasks of its plan in order. It ends well only when it has done
/// them all.
pub proof fn fresh_follows_its_plan(files: Seq<FileView>, replies: Seq<ReplyView>)
    requires
        accepted(RunView { files, tasks: seq![TaskView::PlanFresh] }, replies),
    ensures
        follows(
            RunView { files, tasks: seq![TaskView::PlanFresh] },
            replies,
            fresh_plan(files, replies),
        ),
{
    let first = seq![TaskView::PlanFresh];
    let run = RunView { files, tasks: first };
    let plan = fresh_plan(files, replies);
    let done = performed(run, replies);
    performed_len(run, replies);
    if replies.len() == 0 {
        assert(done + run.tasks =~= plan);
    } else if replies[0] is Failed {
        assert(done =~= first);
        assert(done =~= plan.subrange(0, 1));
    } else {
        let tables = listed(replies[0]->Tables_0);
        let ts = drop_tasks(tables).push(TaskView::ClearMarkers);
        let rest = up_tasks(None);
        assert(plan_fresh(tables) + run.tasks.drop_first() =~= ts + rest);
        let run1 = RunView { files, tasks: ts + rest };
        drop_tasks_are_plain(tables);
        assert(run.resumed(replies[0]) == ProgressView::Waiting(run1));
        let replies1 = replies.drop_first();
        assert(accepted(run1, replies1));
        assert(played(run, replies) == played(run1, replies1));
        assert(done == first + performed(run1, replies1));
        plain_tasks_in_order(run1, ts, rest, replies1);
        let n = replies1.len() as int;
        let clear = first + ts;
        let up = up_plan(files, None, later(replies, clear.len() as int));
        if n <= ts.len() {
            assert(up =~= rest);
            assert((first + ts.take(n)) + (ts.skip(n) + rest) =~= plan);
        } else {
            let run2 = RunView { files, tasks: rest };
            let last = replies1.skip(ts.len() as int);
            assert(last =~= later(replies, clear.len() as int));
            up_follows_its_plan(files, None, last);
            assert(done =~= clear + performed(run2, last));
            follows_after(run, run2, clear, replies, last, up);
        }
        assert(done =~= plan.subrange(0, done.len() as int));
    }
}

/// What `status` does, given the replies: it looks at the markers and reports the
/// state of every migration.
pub proof fn status_reports_every_migration(files: Seq<FileView>, replies: Seq<ReplyView>)
    requires
        accepted(
            RunView { files, tasks: seq![TaskView::DefineMarkers, TaskView::Report] },
            replies,
        ),
    ensures
        ({
            let tasks = seq![TaskView::DefineMarkers, TaskView::Report];
            let run = RunView { files, tasks };
            &&& replies.len() <= 2
            &&& performed(run, replies) == tasks.take(replies.len() as int)
            &&& match played(run, replies) {
                ProgressView::Waiting(now) => now.tasks == tasks.skip(replies.len() as int),
                ProgressView::Finished(Ok(report)) => replies.len() == 2 && replies[1] is Markers
                    && report == ReportView::Statuses(statuses(files, replies[1]->Markers_0)),
                ProgressView::Finished(Err(_)) => replies.len() > 0,
            }
        }),
{
    let tasks = seq![TaskView::DefineMarkers, TaskView::Report];
    let run = RunView { files, tasks };
    performed_len(run, replies);
    if replies.len() > 0 && !(replies[0] is Failed) {
        let run1 = RunView { files, tasks: seq![TaskView::Report] };
        assert(Seq::<TaskView>::empty() + run.tasks.drop_first() =~= run1.tasks);
        assert(run.resumed(replies[0]) == ProgressView::Waiting(run1));
        let replies1 = replies.drop_first();
        assert(accepted(run1, replies1));
        assert(played(run, replies) == played(run1, replies1));
        assert(performed(run, replies) == seq![run.tasks[0]] + performed(run1, replies1));
        if replies1.len() > 0 {
            assert(replies[1] == replies1[0]);
            assert(run1.accepts(replies1.first()));
            assert(performed(run, replies) =~= tasks.take(replies.len() as int));
        } else {
            assert(performed(run, replies) =~= tasks.take(1));
            assert(run1.tasks =~= tasks.skip(1));
        }
    } else if replies.len() > 0 {
        assert(performed(run, replies) =~= tasks.take(1));
    } else {
        assert(performed(run, replies) =~= tasks.take(0));
        assert(tasks.skip(0) =~= tasks);
    }
}

/// What stands before the marker of a migration: its statements, and the check for
/// its tables if it defines any.
pub open spec fn before_marker(name: Seq<char>, sql: Seq<char>) -> Seq<TaskView> {
    statement_tasks(Direction::Up, name, statements(sql)) + verify_tasks(name, defined_tables(sql))
}

/// The path of the file that a statement comes from.
pub open spec fn path_of(direction: Direction, name: Seq<char>) -> Seq<char> {
    match direction {
        Direction::Up => up_path(name),
        Direction::Down => down_path(name),
    }
}

/// What stands before a task of a migration: before a statement those with lower numbers,
/// before all others what has to be done first.
spec fn block_before(files: Seq<FileView>, t: TaskView) -> Option<Seq<TaskView>> {
    match t {
        TaskView::Statement { direction, name, number, sql } => match file_text(
            files,
            path_of(direction, name),
        ) {
            Ok(text) => if 1 <= number <= statements(text).len() && statements(text)[number - 1]
                == sql {
                Some(statement_tasks(direction, name, statements(text)).take(number - 1))
            } else {
                None
            },
            Err(_) => None,
        },
        TaskView::Verify { name, expected } => match file_text(files, up_path(name)) {
            Ok(text) => if expected == defined_tables(text) {
                Some(statement_tasks(Direction::Up, name, statements(text)))
            } else {
                None
            },
            Err(_) => None,
        },
        TaskView::Mark { name, .. } => match file_text(files, up_path(name)) {
            Ok(sql) => Some(before_marker(name, sql)),
            Err(_) => None,
        },
        TaskView::Unmark { name } => match file_text(files, down_path(name)) {
            Ok(sql) => Some(statement_tasks(Direction::Down, name, statements(sql))),
            Err(_) => None,
        },
        _ => Some(Seq::empty()),
    }
}

/// Whether a task is in the middle of a migration.
spec fn is_inner(t: TaskView) -> bool {
    t is Statement || t is Verify
}

spec fn belongs(t: TaskView) -> bool {
    t is Statement || t is Verify || t is Mark || t is Unmark
}

/// Whether a task stands behind what belongs before it, and that at the start of a
/// migration.
spec fn guarded(files: Seq<FileView>, tasks: Seq<TaskView>, p: int) -> bool {
    block_before(files, tasks[p]) matches Some(block) && {
        let q = p - block.len();
        &&& 0 <= q
        &&& tasks.subrange(q, p) == block
        &&& belongs(tasks[p]) ==> q == 0 || !is_inner(tasks[q - 1])
    }
}

spec fn all_guarded(files: Seq<FileView>, tasks: Seq<TaskView>) -> bool {
    forall|p: int| 0 <= p < tasks.len() ==> #[trigger] guarded(files, tasks, p)
}

proof fn guarded_concat(files: Seq<FileView>, a: Seq<TaskView>, b: Seq<TaskView>)
    requires
        all_guarded(files, a),
        all_guarded(files, b),
        a.len() > 0 ==> !is_inner(a.last()),
    ensures
        all_guarded(files, a + b),
{
    let tasks = a + b;
    assert forall|p: int| 0 <= p < tasks.len() implies #[trigger] guarded(files, tasks, p) by {
        if p < a.len() {
            assert(guarded(files, a, p));
            let n = block_before(files, tasks[p])->0.len();
            assert(tasks.subrange(p - n, p) =~= a.subrange(p - n, p));
            if p - n > 0 {
                assert(tasks[p - n - 1] == a[p - n - 1]);
            }
        } else {
            let q = p - a.len();
            assert(guarded(files, b, q));
            let n = block_before(files, tasks[p])->0.len();
            assert(tasks.subrange(p - n, p) =~= b.subrange(q - n, q));
            if p - n > a.len() {
                assert(tasks[p - n - 1] == b[q - n - 1]);
            } else if a.len() > 0 {
                assert(tasks[p - n - 1] == a.last());
            }
        }
    }
}

proof fn guarded_without_marks(files: Seq<FileView>, tasks: Seq<TaskView>)
    requires
        forall|i: int| 0 <= i < tasks.len() ==> !belongs(#[trigger] tasks[i]),
    ensures
        all_guarded(files, tasks),
{
    assert forall|p: int| 0 <= p < tasks.len() implies #[trigger] guarded(files, tasks, p) by {
        assert(tasks.subrange(p, p) =~= Seq::empty());
    }
}

/// The statements of a file are guarded, and so is what follows them.
proof fn statements_are_guarded(
    files: Seq<FileView>,
    direction: Direction,
    name: Seq<char>,
    more: Seq<TaskView>,
    p: int,
)
    requires
        file_text(files, path_of(direction, name)) is Ok,
        ({
            let stmts = statements(file_text(files, path_of(direction, name))->Ok_0);
            0 <= p < stmts.len()
        }),
    ensures
        ({
            let stmts = statements(file_text(files, path_of(direction, name))->Ok_0);
            guarded(files, statement_tasks(direction, name, stmts) + more, p)
        }),
{
    let stmts = statements(file_text(files, path_of(direction, name))->Ok_0);
    let ts = statement_tasks(direction, name, stmts);
    let all = ts + more;
    assert(all[p] == ts[p]);
    let block = block_before(files, all[p])->0;
    assert(block == ts.take(p));
    assert(all.subrange(0, p) =~= ts.take(p));
}

proof fn apply_tasks_are_guarded(files: Seq<FileView>, name: Seq<char>, batch: u32)
    ensures
        all_guarded(files, apply_tasks(files, name, batch)),
        apply_tasks(files, name, batch).len() > 0,
        !is_inner(apply_tasks(files, name, batch).last()),
{
    let ts = apply_tasks(files, name, batch);
    if file_text(files, up_path(name)) is Ok {
        let sql = file_text(files, up_path(name))->Ok_0;
        let stmts = statement_tasks(Direction::Up, name, statements(sql));
        let check = verify_tasks(name, defined_tables(sql));
        let mark = seq![TaskView::Mark { name, batch }];
        let block = before_marker(name, sql);
        let n = stmts.len() as int;
        assert(ts =~= block + mark);
        assert(ts =~= stmts + (check + mark));
        assert forall|p: int| 0 <= p < ts.len() implies #[trigger] guarded(files, ts, p) by {
            if p < n {
                statements_are_guarded(files, Direction::Up, name, check + mark, p);
            } else if p < block.len() {
                assert(ts[p] == check[p - n]);
                assert(ts.subrange(0, n) =~= stmts);
            } else {
                assert(ts[p] == mark[0]);
                assert(ts.subrange(0, p) =~= block);
            }
        }
    } else {
        guarded_without_marks(files, ts);
    }
}

proof fn apply_all_is_guarded(files: Seq<FileView>, names: Seq<Seq<char>>, batch: u32)
    ensures
        all_guarded(files, apply_all(files, names, batch)),
        apply_all(files, names, batch).len() > 0 ==> !is_inner(
            apply_all(files, names, batch).last(),
        ),
    decreases names.len(),
{
    if names.len() > 0 {
        apply_all_is_guarded(files, names.drop_last(), batch);
        apply_tasks_are_guarded(files, names.last(), batch);
        guarded_concat(
            files,
            apply_all(files, names.drop_last(), batch),
            apply_tasks(files, names.last(), batch),
        );
    }
}

pub(crate) proof fn rollback_all_has_no_marks(files: Seq<FileView>, names: Seq<Seq<char>>)
    ensures
        forall|i: int|
            0 <= i < rollback_all(files, names).len() ==> !(#[trigger] rollback_all(
                files,
                names,
            )[i] is Mark),
    decreases names.len(),
{
    if names.len() > 0 {
        rollback_all_has_no_marks(files, names.drop_last());
    }
}

proof fn rollback_tasks_are_guarded(files: Seq<FileView>, name: Seq<char>)
    ensures
        all_guarded(files, rollback_tasks(files, name)),
        rollback_tasks(files, name).len() > 0,
        !is_inner(rollback_tasks(files, name).last()),
{
    let ts = rollback_tasks(files, name);
    if file_text(files, down_path(name)) is Ok {
        let sql = file_text(files, down_path(name))->Ok_0;
        let stmts = statement_tasks(Direction::Down, name, statements(sql));
        let unmark = seq![TaskView::Unmark { name }];
        let n = stmts.len() as int;
        assert(ts =~= stmts + unmark);
        assert forall|p: int| 0 <= p < ts.len() implies #[trigger] guarded(files, ts, p) by {
            if p < n {
                statements_are_guarded(files, Direction::Down, name, unmark, p);
            } else {
                assert(ts[p] == unmark[0]);
                assert(ts.subrange(0, p) =~= stmts);
            }
        }
    } else {
        guarded_without_marks(files, ts);
    }
}

proof fn rollback_all_is_guarded(files: Seq<FileView>, names: Seq<Seq<char>>)
    ensures
        all_guarded(files, rollback_all(files, names)),
        rollback_all(files, names).len() > 0 ==> !is_inner(rollback_all(files, names).last()),
    decreases names.len(),
{
    if names.len() > 0 {
        rollback_all_is_guarded(files, names.drop_last());
        rollback_tasks_are_guarded(files, names.last());
        guarded_concat(
            files,
            rollback_all(files, names.drop_last()),
            rollback_tasks(files, names.last()),
        );
    }
}

proof fn up_plan_is_guarded(files: Seq<FileView>, steps: Option<u32>, replies: Seq<ReplyView>)
    ensures
        all_guarded(files, up_plan(files, steps, replies)),
{
    guarded_without_marks(files, up_tasks(steps));
    if replies.len() > 1 && replies[1] is Markers {
        let names = limited(pending(files, replies[1]->Markers_0), steps);
        let first = up_tasks(steps).push(TaskView::PlanBatch { names });
        guarded_without_marks(files, first);
        if replies.len() > 2 && replies[2] is Markers {
            let batch = (top_batch(replies[2]->Markers_0) + 1) as u32;
            apply_all_is_guarded(files, names, batch);
            guarded_concat(files, first, apply_all(files, names, batch));
        }
    }
}

proof fn down_plan_is_guarded(files: Seq<FileView>, steps: Option<u32>, replies: Seq<ReplyView>)
    ensures
        all_guarded(files, down_plan(files, steps, replies)),
{
    guarded_without_marks(files, down_tasks(steps));
    if replies.len() > 1 && replies[1] is Markers {
        let names = to_roll_back(replies[1]->Markers_0, steps);
        rollback_all_is_guarded(files, names);
        guarded_concat(files, down_tasks(steps), rollback_all(files, names));
    }
}

proof fn down_all_plan_is_guarded(files: Seq<FileView>, replies: Seq<ReplyView>)
    ensures
        all_guarded(files, down_all_plan(files, replies)),
        down_all_plan(files, replies).len() > 0,
        !is_inner(down_all_plan(files, replies).last()),
{
    guarded_without_marks(files, down_all_tasks());
    if replies.len() > 1 && replies[1] is Markers {
        let names = latest_first(replies[1]->Markers_0);
        rollback_all_is_guarded(files, names);
        guarded_concat(files, down_all_tasks(), rollback_all(files, names));
    }
}

/// The five runs of the migrator.
pub open spec fn is_command(tasks: Seq<TaskView>) -> bool {
    ||| exists|steps: Option<u32>| tasks == #[trigger] up_tasks(steps)
    ||| exists|steps: Option<u32>| tasks == #[trigger] down_tasks(steps)
    ||| tasks == seq![TaskView::PlanFresh]
    ||| tasks == seq![TaskView::DefineMarkers, TaskView::PlanRefresh]
    ||| tasks == seq![TaskView::DefineMarkers, TaskView::Report]
}

/// What a run has done and what it has ahead is guarded.
proof fn commands_are_guarded(run: RunView, replies: Seq<ReplyView>)
    requires
        is_command(run.tasks),
        accepted(run, replies),
        played(run, replies) is Waiting,
    ensures
        all_guarded(
            run.files,
            performed(run, replies) + (played(run, replies)->Waiting_0).tasks,
        ),
{
    let files = run.files;
    let now = played(run, replies)->Waiting_0;
    if run.tasks == seq![TaskView::PlanFresh] {
        fresh_follows_its_plan(files, replies);
        let first = seq![TaskView::PlanFresh];
        guarded_without_marks(files, first);
        if replies.len() > 0 && replies[0] is Tables {
            let tables = listed(replies[0]->Tables_0);
            let clear = first + drop_tasks(tables).push(TaskView::ClearMarkers);
            drop_tasks_are_plain(tables);
            guarded_without_marks(files, clear);
            let up = later(replies, clear.len() as int);
            up_plan_is_guarded(files, None, up);
            guarded_concat(files, clear, up_plan(files, None, up));
        }
    } else if run.tasks == seq![TaskView::DefineMarkers, TaskView::PlanRefresh] {
        refresh_follows_its_plan(files, replies);
        let first = seq![TaskView::DefineMarkers, TaskView::PlanRefresh];
        guarded_without_marks(files, first);
        if replies.len() > 1 && replies[1] is Markers {
            let after = later(replies, 2);
            if replies[1]->Markers_0.len() > 0 {
                let down = down_all_plan(files, after);
                let last = later(after, down.len() as int);
                down_all_plan_is_guarded(files, after);
                up_plan_is_guarded(files, None, last);
                guarded_concat(files, first, down);
                guarded_concat(files, first + down, up_plan(files, None, last));
            } else {
                up_plan_is_guarded(files, None, after);
                guarded_concat(files, first, up_plan(files, None, after));
            }
        }
    } else if run.tasks == seq![TaskView::DefineMarkers, TaskView::Report] {
        status_reports_every_migration(files, replies);
        assert(performed(run, replies) + now.tasks =~= run.tasks);
        guarded_without_marks(files, run.tasks);
    } else if exists|steps: Option<u32>| run.tasks == #[trigger] up_tasks(steps) {
        let steps = choose|steps: Option<u32>| run.tasks == #[trigger] up_tasks(steps);
        up_follows_its_plan(files, steps, replies);
        up_plan_is_guarded(files, steps, replies);
    } else {
        let steps = choose|steps: Option<u32>| run.tasks == #[trigger] down_tasks(steps);
        down_follows_its_plan(files, steps, replies);
        down_plan_is_guarded(files, steps, replies);
    }
}

/// Whether the requests from number `first` on were the given statements, all of them
/// carried out.
pub open spec fn ran(
    run: RunView,
    replies: Seq<ReplyView>,
    first: int,
    stmts: Seq<Seq<char>>,
) -> bool {
    forall|k: int|
        0 <= k < stmts.len() ==> asked(run, replies)[first + k] == (RequestView::Execute {
            sql: #[trigger] stmts[k],
        }) && replies[first + k] is Done
}

/// Whether request number `at` was a look at the tables that found each of the given.
pub open spec fn found(
    run: RunView,
    replies: Seq<ReplyView>,
    at: int,
    tables: Seq<Seq<char>>,
) -> bool {
    &&& asked(run, replies)[at] is ListTables
    &&& replies[at] is Tables
    &&& forall|t: Seq<char>| #[trigger]
        tables.contains(t) ==> listed(replies[at]->Tables_0).contains(t)
}

/// The marker of a migration is written last: whenever a run asks for it, the
/// requests just before were the statements of the migration, all carried out, and,
/// if the migration defines tables, a look at the tables that found each of them.
pub proof fn marker_is_written_last(
    run: RunView,
    replies: Seq<ReplyView>,
    name: Seq<char>,
    batch: u32,
)
    requires
        is_command(run.tasks),
        accepted(run, replies),
        played(run, replies) is Waiting,
        (played(run, replies)->Waiting_0).request() == (RequestView::InsertMarker { name, batch }),
    ensures
        file_text(run.files, up_path(name)) is Ok,
        asked(run, replies).len() == replies.len(),
        ({
            let sql = file_text(run.files, up_path(name))->Ok_0;
            let stmts = statements(sql);
            let tables = defined_tables(sql);
            if tables.len() == 0 {
                &&& stmts.len() <= replies.len()
                &&& ran(run, replies, replies.len() - stmts.len(), stmts)
            } else {
                &&& stmts.len() < replies.len()
                &&& ran(run, replies, replies.len() - 1 - stmts.len(), stmts)
                &&& found(run, replies, replies.len() - 1, tables)
            }
        }),
{
    let now = played(run, replies)->Waiting_0;
    let done = performed(run, replies);
    let full = done + now.tasks;
    performed_len(run, replies);
    commands_are_guarded(run, replies);
    now_waits(run, replies);
    let p = done.len() as int;
    assert(full[p] == now.tasks[0]);
    assert(now.tasks[0] == (TaskView::Mark { name, batch }));
    assert(guarded(run.files, full, p));
    let sql = file_text(run.files, up_path(name))->Ok_0;
    let block = before_marker(name, sql);
    let stmts = statements(sql);
    let tables = defined_tables(sql);
    let n = stmts.len() as int;
    let first = p - block.len();
    assert forall|k: int| 0 <= k < block.len() implies done[first + k] == #[trigger] block[k] by {
        assert(full.subrange(first, p)[k] == full[first + k]);
    }
    assert(ran(run, replies, first, stmts)) by {
        assert forall|k: int| 0 <= k < n implies asked(run, replies)[first + k] == (
        RequestView::Execute { sql: #[trigger] stmts[k] }) && replies[first + k] is Done by {
            assert(block[k] == (TaskView::Statement {
                direction: Direction::Up,
                name,
                number: (k + 1) as nat,
                sql: stmts[k],
            }));
            each_reply(run, replies, first + k);
        }
    }
    if tables.len() > 0 {
        assert(block.len() == n + 1);
        assert(block[n] == (TaskView::Verify { name, expected: tables }));
        assert(done[first + n] == block[n]);
        each_reply(run, replies, first + n);
        let existing = listed(replies[first + n]->Tables_0);
        nothing_is_missing_if_all_exist(tables, existing);
        assert(missing_from(tables, existing).len() == 0);
        assert(found(run, replies, first + n, tables));
    } else {
        assert(block.len() == n);
    }
}

/// The marker of a migration is deleted last: whenever a run asks for that, the requests
/// just before were all the statements of the `down` file of the migration, in order, all
/// carried out.
pub proof fn marker_is_deleted_last(run: RunView, replies: Seq<ReplyView>, name: Seq<char>)
    requires
        is_command(run.tasks),
        accepted(run, replies),
        played(run, replies) is Waiting,
        (played(run, replies)->Waiting_0).request() == (RequestView::DeleteMarker { name }),
    ensures
        file_text(run.files, down_path(name)) is Ok,
        asked(run, replies).len() == replies.len(),
        ({
            let stmts = statements(file_text(run.files, down_path(name))->Ok_0);
            &&& stmts.len() <= replies.len()
            &&& ran(run, replies, replies.len() - stmts.len(), stmts)
        }),
{
    let now = played(run, replies)->Waiting_0;
    let done = performed(run, replies);
    let full = done + now.tasks;
    performed_len(run, replies);
    commands_are_guarded(run, replies);
    now_waits(run, replies);
    let p = done.len() as int;
    assert(full[p] == now.tasks[0]);
    assert(now.tasks[0] == (TaskView::Unmark { name }));
    assert(guarded(run.files, full, p));
    let stmts = statements(file_text(run.files, down_path(name))->Ok_0);
    let block = statement_tasks(Direction::Down, name, stmts);
    let first = p - block.len();
    assert forall|k: int| 0 <= k < stmts.len() implies asked(run, replies)[first + k] == (
    RequestView::Execute { sql: #[trigger] stmts[k] }) && replies[first + k] is Done by {
        assert(full.subrange(first, p)[k] == full[first + k]);
        assert(done[first + k] == block[k]);
        assert(block[k] == (TaskView::Statement {
            direction: Direction::Down,
            name,
            number: (k + 1) as nat,
            sql: stmts[k],
        }));
        each_reply(run, replies, first + k);
    }
}

/// Whether request `i` runs statement `k` (counted from 1) of the file at a path, in its
/// turn: the requests before it ran the statements before it, one by one, all carried out,
/// and the one before these was no part of the file.
pub open spec fn is_in_turn(
    run: RunView,
    replies: Seq<ReplyView>,
    i: int,
    path: Seq<char>,
    k: int,
) -> bool {
    let stmts = statements(file_text(run.files, path)->Ok_0);
    &&& file_text(run.files, path) is Ok
    &&& 1 <= k <= stmts.len()
    &&& k <= i
    &&& asked(run, replies)[i] == (RequestView::Execute { sql: stmts[k - 1] })
    &&& ran(run, replies, i - k + 1, stmts.take(k - 1))
    &&& !(asked(run, replies)[i - k] is Execute)
}

/// Whether request `i` runs a statement of a migration file in its turn.
pub open spec fn has_its_turn(run: RunView, replies: Seq<ReplyView>, i: int) -> bool {
    exists|direction: Direction, name: Seq<char>, k: int| #[trigger]
        is_in_turn(run, replies, i, path_of(direction, name), k)
}

/// Each statement is run in its turn: behind those before it in its file, each of which
/// was run once and carried out.
pub proof fn each_statement_has_its_turn(run: RunView, replies: Seq<ReplyView>, i: int)
    requires
        is_command(run.tasks),
        accepted(run, replies),
        0 <= i < replies.len(),
        asked(run, replies)[i] is Execute,
        played(run, replies) is Waiting,
    ensures
        has_its_turn(run, replies, i),
{
    let now = played(run, replies)->Waiting_0;
    let done = performed(run, replies);
    let full = done + now.tasks;
    performed_len(run, replies);
    commands_are_guarded(run, replies);
    each_reply(run, replies, i);
    assert(full[i] == done[i]);
    assert(guarded(run.files, full, i));
    if let TaskView::Statement { direction, name, number, sql } = done[i] {
        let path = path_of(direction, name);
        let stmts = statements(file_text(run.files, path)->Ok_0);
        let ts = statement_tasks(direction, name, stmts);
        let k = number as int;
        let q = i - k + 1;
        let block = ts.take(k - 1);
        assert(full.subrange(q, i) == block);
        assert forall|j: int| 0 <= j < k - 1 implies asked(run, replies)[q + j] == (
        RequestView::Execute { sql: #[trigger] stmts.take(k - 1)[j] }) && replies[q
            + j] is Done by {
            assert(full.subrange(q, i)[j] == full[q + j]);
            assert(block[j] == ts[j]);
            assert(done[q + j] == ts[j]);
            each_reply(run, replies, q + j);
        }
        starts_with_a_look(run, replies);
        if q == 0 {
            assert(full[0] == done[0]);
            if k > 1 {
                assert(full.subrange(q, i)[0] == full[0]);
            }
            assert(false);
        }
        assert(full[q - 1] == done[q - 1]);
        each_reply(run, replies, q - 1);
        assert(is_in_turn(run, replies, i, path, k));
    }
}

proof fn starts_with_a_look(run: RunView, replies: Seq<ReplyView>)
    requires
        is_command(run.tasks),
        accepted(run, replies),
        replies.len() > 0,
    ensures
        performed(run, replies).len() > 0,
        performed(run, replies)[0] is DefineMarkers || performed(run, replies)[0] is PlanFresh,
{
    performed_len(run, replies);
    assert(performed(run, replies)[0] == run.tasks[0]);
}

/// A run that is not over is waiting for a reply.
pub proof fn now_waits(run: RunView, replies: Seq<ReplyView>)
    requires
        is_command(run.tasks) || run.waits(),
        played(run, replies) is Waiting,
    ensures
        (played(run, replies)->Waiting_0).waits(),
    decreases replies.len(),
{
    if replies.len() > 0 {
        now_waits(run.resumed(replies.first())->Waiting_0, replies.drop_first());
    }
}

proof fn marks_of_apply_all(files: Seq<FileView>, names: Seq<Seq<char>>, batch: u32)
    ensures
        forall|i: int|
            0 <= i < apply_all(files, names, batch).len() ==> (#[trigger] apply_all(
                files,
                names,
                batch,
            )[i] matches TaskView::Mark { name, batch: b } ==> b == batch && names.contains(name)),
    decreases names.len(),
{
    if names.len() > 0 {
        let init = names.drop_last();
        let last = names.last();
        marks_of_apply_all(files, init, batch);
        let a = apply_all(files, init, batch);
        let all = apply_all(files, names, batch);
        assert forall|i: int| 0 <= i < all.len() implies (#[trigger] all[i] matches TaskView::Mark {
            name,
            batch: b,
        } ==> b == batch && names.contains(name)) by {
            if let TaskView::Mark { name, .. } = all[i] {
                if i < a.len() {
                    assert(a[i] == all[i]);
                    let k = init.index_of(name);
                    assert(names[k] == name);
                } else {
                    assert(names[names.len() - 1] == last);
                }
            }
        }
    }
}

/// The highest batch number is above all, and is that of some record if it is not 0.
pub proof fn top_batch_is_highest(records: Seq<RecordView>)
    ensures
        forall|i: int|
            0 <= i < records.len() ==> ((#[trigger] records[i]).batch matches Some(b) ==> b
                <= top_batch(records)),
        top_batch(records) > 0 ==> exists|i: int|
            0 <= i < records.len() && (#[trigger] records[i]).batch == Some(
                top_batch(records) as u32,
            ),
        top_batch(records) <= u32::MAX,
    decreases records.len(),
{
    if records.len() > 0 {
        let init = records.drop_last();
        top_batch_is_highest(init);
        assert forall|i: int| 0 <= i < records.len() implies ((
        #[trigger] records[i]).batch matches Some(b) ==> b <= top_batch(records)) by {
            if i < init.len() {
                assert(init[i] == records[i]);
            }
        }
        if top_batch(records) > 0 {
            if top_batch(records) == top_batch(init) {
                let i = choose|i: int|
                    0 <= i < init.len() && (#[trigger] init[i]).batch == Some(
                        top_batch(init) as u32,
                    );
                assert(records[i].batch == Some(top_batch(records) as u32));
            } else {
                assert(records[records.len() - 1].batch == Some(top_batch(records) as u32));
            }
        }
    }
}

/// All migrations of one `up` get the same batch number: the one after the highest
/// that the second look at the markers found.
pub proof fn one_batch_for_all(
    files: Seq<FileView>,
    steps: Option<u32>,
    replies: Seq<ReplyView>,
    i: int,
)
    requires
        accepted(RunView { files, tasks: up_tasks(steps) }, replies),
        0 <= i < replies.len(),
        asked(RunView { files, tasks: up_tasks(steps) }, replies)[i] is InsertMarker,
    ensures
        i > 2,
        replies[2] is Markers,
        asked(RunView { files, tasks: up_tasks(steps) }, replies)[i]->InsertMarker_batch
            == top_batch(replies[2]->Markers_0) + 1,
{
    let run = RunView { files, tasks: up_tasks(steps) };
    let plan = up_plan(files, steps, replies);
    up_follows_its_plan(files, steps, replies);
    assert(performed(run, replies)[i] == plan[i]);
    assert(plan[0] == TaskView::DefineMarkers);
    assert(plan[1] == (TaskView::PlanUp { steps }));
    each_reply(run, replies, i);
    assert(plan[i] is Mark);
    let names = limited(pending(files, replies[1]->Markers_0), steps);
    let head = up_tasks(steps).push(TaskView::PlanBatch { names });
    assert(head[2] == (TaskView::PlanBatch { names }));
    assert(plan[2] == head[2]);
    assert(performed(run, replies)[2] == plan[2]);
    each_reply(run, replies, 2);
    let batch = (top_batch(replies[2]->Markers_0) + 1) as u32;
    marks_of_apply_all(files, names, batch);
    assert(plan[i] == apply_all(files, names, batch)[i - 3]);
}

/// Whether a task belongs to the application of a migration.
pub open spec fn applies(t: TaskView, name: Seq<char>) -> bool {
    match t {
        TaskView::Statement { direction: Direction::Up, name: n, .. } => n == name,
        TaskView::Verify { name: n, .. } => n == name,
        TaskView::Mark { name: n, .. } => n == name,
        _ => false,
    }
}

proof fn nothing_follows_the_marker(
    files: Seq<FileView>,
    names: Seq<Seq<char>>,
    batch: u32,
    i: int,
    j: int,
    name: Seq<char>,
)
    requires
        names.no_duplicates(),
        0 <= i < j < apply_all(files, names, batch).len(),
        apply_all(files, names, batch)[i] matches TaskView::Mark { name: n, .. } && n == name,
    ensures
        !applies(apply_all(files, names, batch)[j], name),
    decreases names.len(),
{
    if names.len() > 0 {
        let init = names.drop_last();
        let last = names.last();
        let a = apply_all(files, init, batch);
        let b = apply_tasks(files, last, batch);
        let all = apply_all(files, names, batch);
        assert(all == a + b);
        if j < a.len() {
            assert forall|x: int, y: int|
                0 <= x < init.len() && 0 <= y < init.len() && x != y implies init[x]
                != init[y] by {
                assert(init[x] == names[x] && init[y] == names[y]);
            }
            nothing_follows_the_marker(files, init, batch, i, j, name);
        } else if i < a.len() {
            marks_of_apply_all(files, init, batch);
            assert(a[i] == all[i]);
            let k = init.index_of(name);
            assert(names[k] == name);
            assert(names[names.len() - 1] == last);
            assert(all[j] == b[j - a.len()]);
        } else {
            assert(all[i] == b[i - a.len()]);
        }
    }
}

proof fn pending_has_no_duplicates(files: Seq<FileView>, records: Seq<RecordView>)
    ensures
        pending(files, records).no_duplicates(),
{
    migration_names_are_distinct(files);
    filter_has_no_duplicates(
        migration_names(files),
        |n: Seq<char>| !record_names(records).contains(n),
    );
}

/// No migration is listed twice.
pub proof fn migration_names_are_distinct(files: Seq<FileView>)
    ensures
        migration_names(files).no_duplicates(),
{
    let names = migration_names(files);
    migration_names_are_exact(files);
    assert forall|i: int, j: int| 0 <= i < names.len() && 0 <= j < names.len() && i != j implies
        names[i] != names[j] by {
        before_is_irreflexive(names[i]);
        if i < j {
            assert(before(names[i], names[j]));
        } else {
            assert(before(names[j], names[i]));
        }
    }
}

proof fn filter_has_no_duplicates(names: Seq<Seq<char>>, p: spec_fn(Seq<char>) -> bool)
    requires
        names.no_duplicates(),
    ensures
        names.filter(p).no_duplicates(),
    decreases names.len(),
{
    reveal(Seq::filter);
    if names.len() > 0 {
        let init = names.drop_last();
        let last = names.last();
        assert forall|x: int, y: int|
            0 <= x < init.len() && 0 <= y < init.len() && x != y implies init[x] != init[y] by {
            assert(init[x] == names[x] && init[y] == names[y]);
        }
        filter_has_no_duplicates(init, p);
        let some = init.filter(p);
        if some.contains(last) {
            init.lemma_filter_contains_rev(p, last);
            let k = init.index_of(last);
            assert(names[k] == names[names.len() - 1]);
        }
    }
}

/// When an `up` stops in the middle of a migration, because one of its statements
/// fails or one of its tables is missing, it has not asked for the marker of that
/// migration before.
pub proof fn a_failed_migration_stays_unmarked(
    files: Seq<FileView>,
    steps: Option<u32>,
    replies: Seq<ReplyView>,
    name: Seq<char>,
)
    requires
        ({
            let run = RunView { files, tasks: up_tasks(steps) };
            &&& accepted(run, replies)
            &&& replies.len() > 0
            &&& played(run, replies) matches ProgressView::Finished(Err(_))
            &&& applies(performed(run, replies).last(), name)
        }),
    ensures
        ({
            let run = RunView { files, tasks: up_tasks(steps) };
            forall|i: int|
                0 <= i < replies.len() - 1 ==> !(#[trigger] asked(
                    run,
                    replies,
                )[i] matches RequestView::InsertMarker { name: n, .. } && n == name)
        }),
{
    let run = RunView { files, tasks: up_tasks(steps) };
    let plan = up_plan(files, steps, replies);
    let done = performed(run, replies);
    up_follows_its_plan(files, steps, replies);
    assert forall|i: int| 0 <= i < replies.len() - 1 implies !(#[trigger] asked(
        run,
        replies,
    )[i] matches RequestView::InsertMarker { name: n, .. } && n == name) by {
        let j = replies.len() - 1;
        if asked(run, replies)[i] matches RequestView::InsertMarker { name: n, .. } && n == name {
            one_batch_for_all(files, steps, replies, i);
            each_reply(run, replies, i);
            assert(done[i] == plan[i]);
            assert(done[j] == plan[j]);
            let names = limited(pending(files, replies[1]->Markers_0), steps);
            let batch = (top_batch(replies[2]->Markers_0) + 1) as u32;
            pending_has_no_duplicates(files, replies[1]->Markers_0);
            assert(names.no_duplicates());
            nothing_follows_the_marker(files, names, batch, i - 3, j - 3, name);
        }
    }
}

/// `fresh` removes every table that it finds but the table of the markers, and no
/// other.
pub proof fn fresh_drops_all_tables_but_its_own(files: Seq<FileView>, replies: Seq<ReplyView>)
    requires
        accepted(RunView { files, tasks: seq![TaskView::PlanFresh] }, replies),
        replies.len() > 0,
        replies[0] is Tables,
    ensures
        ({
            let run = RunView { files, tasks: seq![TaskView::PlanFresh] };
            let tables = listed(replies[0]->Tables_0);
            &&& forall|i: int|
                0 <= i < replies.len() ==> (#[trigger] asked(
                    run,
                    replies,
                )[i] matches RequestView::DropTable { table } ==> tables.contains(table) && table
                    != "_migrations"@)
            &&& played(run, replies) matches ProgressView::Finished(Ok(_)) ==> forall|t: Seq<char>|
                tables.contains(t) && t != "_migrations"@ ==> asked(run, replies).contains(
                    #[trigger] drop_request(t),
                )
        }),
{
    let run = RunView { files, tasks: seq![TaskView::PlanFresh] };
    let tables = listed(replies[0]->Tables_0);
    let plan = fresh_plan(files, replies);
    let drops = drop_tasks(tables);
    let clear = seq![TaskView::PlanFresh] + drops.push(TaskView::ClearMarkers);
    let up = later(replies, clear.len() as int);
    fresh_follows_its_plan(files, replies);
    drop_tasks_are_exact(tables);
    up_plan_drops_nothing(files, None, up);
    assert forall|i: int| 0 <= i < replies.len() implies (#[trigger] asked(
        run,
        replies,
    )[i] matches RequestView::DropTable { table } ==> tables.contains(table) && table
        != "_migrations"@) by {
        assert(performed(run, replies)[i] == plan[i]);
        each_reply(run, replies, i);
        if i >= clear.len() {
            assert(plan[i] == up_plan(files, None, up)[i - clear.len()]);
        } else {
            assert(plan[i] == clear[i]);
            if 0 < i < clear.len() - 1 {
                assert(clear[i] == drops[i - 1]);
            }
        }
    }
    if played(run, replies) matches ProgressView::Finished(Ok(_)) {
        assert forall|t: Seq<char>| tables.contains(t) && t != "_migrations"@ implies asked(
            run,
            replies,
        ).contains(#[trigger] drop_request(t)) by {
            let task = TaskView::DropTable { table: t };
            assert(drops.contains(task));
            let k = drops.index_of(task);
            assert(clear[k + 1] == task);
            assert(plan[k + 1] == task);
            assert(asked(run, replies)[k + 1] == drop_request(t));
        }
    }
}

/// The request to remove a table.
pub open spec fn drop_request(table: Seq<char>) -> RequestView {
    RequestView::DropTable { table }
}

proof fn drop_tasks_are_exact(tables: Seq<Seq<char>>)
    ensures
        forall|i: int|
            0 <= i < drop_tasks(tables).len() ==> (#[trigger] drop_tasks(
                tables,
            )[i] matches TaskView::DropTable { table } && tables.contains(table) && table
                != "_migrations"@),
        forall|t: Seq<char>|
            tables.contains(t) && t != "_migrations"@ ==> #[trigger] drop_tasks(tables).contains(
                TaskView::DropTable { table: t },
            ),
    decreases tables.len(),
{
    if tables.len() > 0 {
        let init = tables.drop_last();
        let last = tables.last();
        let a = drop_tasks(init);
        let all = drop_tasks(tables);
        drop_tasks_are_exact(init);
        assert forall|i: int| 0 <= i < all.len() implies (
        #[trigger] all[i] matches TaskView::DropTable { table } && tables.contains(table) && table
            != "_migrations"@) by {
            if i < a.len() {
                assert(a[i] == all[i]);
                let k = init.index_of(a[i]->DropTable_table);
                assert(tables[k] == a[i]->DropTable_table);
            } else {
                assert(tables[tables.len() - 1] == last);
            }
        }
        assert forall|t: Seq<char>|
            tables.contains(t) && t != "_migrations"@ implies #[trigger] all.contains(
            TaskView::DropTable { table: t },
        ) by {
            let task = TaskView::DropTable { table: t };
            let k = tables.index_of(t);
            if k < init.len() {
                assert(init[k] == t);
                assert(a.contains(task));
                let m = a.index_of(task);
                assert(all[m] == task);
            } else {
                assert(all[all.len() - 1] == task);
            }
        }
    }
}

proof fn up_plan_drops_nothing(files: Seq<FileView>, steps: Option<u32>, replies: Seq<ReplyView>)
    ensures
        forall|i: int|
            0 <= i < up_plan(files, steps, replies).len() ==> !(#[trigger] up_plan(
                files,
                steps,
                replies,
            )[i] is DropTable),
{
    if replies.len() > 2 && replies[1] is Markers && replies[2] is Markers {
        apply_all_drops_nothing(
            files,
            limited(pending(files, replies[1]->Markers_0), steps),
            (top_batch(replies[2]->Markers_0) + 1) as u32,
        );
    }
}

proof fn apply_all_drops_nothing(files: Seq<FileView>, names: Seq<Seq<char>>, batch: u32)
    ensures
        forall|i: int|
            0 <= i < apply_all(files, names, batch).len() ==> !(#[trigger] apply_all(
                files,
                names,
                batch,
            )[i] is DropTable),
    decreases names.len(),
{
    if names.len() > 0 {
        apply_all_drops_nothing(files, names.drop_last(), batch);
    }
}

} // verus!
