//! In which order a run asks for what, and what it says of a request that failed.

use vstd::prelude::*;

use crate::causes::an_error_has_a_cause;
use crate::conversation::{accepted, asked, each_reply, performed, performed_len, played};
use crate::error::ErrorView;
use crate::files::{file_text, FileView};
use crate::history::{
    latest_first, latest_first_has_every_name, limited, pending, record_names, to_roll_back,
    top_batch,
};
use crate::laws::{
    down_all_plan, down_follows_its_plan, down_plan, drop_request, fresh_follows_its_plan,
    fresh_plan,
    is_command, later, path_of, refresh_follows_its_plan, refresh_plan, rollback_all_has_no_marks,
    top_batch_is_highest, up_follows_its_plan, up_plan,
};
use crate::migrator::{effect, Effect, ProgressView, RunView};
use crate::plan::{
    apply_all, apply_tasks, down_all_tasks, down_path, down_tasks, drop_tasks, rollback_all,
    rollback_tasks, up_path, up_tasks, Direction, TaskView,
};
use crate::protocol::{listed, ReplyView, RequestView};
use crate::record_laws::pending_is_what_no_record_names;
use crate::surql::statements;
use crate::tables::defined_tables;
use crate::text::{before, before_is_irreflexive, before_is_transitive, truncated};

verus! {

/// The place of a migration whose marker is written, and those of the markers before it.
proof fn marks_before(files: Seq<FileView>, names: Seq<Seq<char>>, batch: u32, p: int) -> (a: int)
    requires
        0 <= p < apply_all(files, names, batch).len(),
        apply_all(files, names, batch)[p] is Mark,
    ensures
        0 <= a < names.len(),
        apply_all(files, names, batch)[p] == (TaskView::Mark { name: names[a], batch }),
        forall|q: int|
            0 <= q < p && (#[trigger] apply_all(files, names, batch)[q]) is Mark
                ==> names.take(a).contains(apply_all(files, names, batch)[q]->Mark_name),
        forall|b: int|
            0 <= b < a ==> was_done(apply_all(files, names, batch), p, #[trigger] names[b], batch),
    decreases names.len(),
{
    let init = names.drop_last();
    let last = names.last();
    let n = names.len() - 1;
    let front = apply_all(files, init, batch);
    let back = apply_tasks(files, last, batch);
    let all = apply_all(files, names, batch);
    assert(all == front + back);
    if p < front.len() {
        assert(front[p] == all[p]);
        let a = marks_before(files, init, batch, p);
        assert(names.take(a) =~= init.take(a));
        assert(names[a] == init[a]);
        assert forall|q: int| 0 <= q < p && (#[trigger] all[q]) is Mark implies names.take(
            a,
        ).contains(all[q]->Mark_name) by {
            assert(front[q] == all[q]);
        }
        assert forall|b: int| 0 <= b < a implies was_done(all, p, #[trigger] names[b], batch) by {
            assert(names[b] == init[b]);
            assert(was_done(front, p, init[b], batch));
            let q = choose|q: int|
                0 <= q < p && #[trigger] is_mark_or_end(front[q], init[b], batch);
            assert(is_mark_or_end(all[q], names[b], batch));
        }
        a
    } else {
        assert(all[p] == back[p - front.len()]);
        assert(names.take(n) =~= init);
        assert(p == all.len() - 1);
        assert forall|q: int| 0 <= q < p && (#[trigger] all[q]) is Mark implies names.take(
            n,
        ).contains(all[q]->Mark_name) by {
            if q < front.len() {
                assert(front[q] == all[q]);
                let c = marks_before(files, init, batch, q);
                assert(init.contains(init[c]));
            } else {
                assert(all[q] == back[q - front.len()]);
            }
        }
        assert forall|b: int| 0 <= b < n implies was_done(all, p, #[trigger] names[b], batch) by {
            marks_of_all(files, init, batch, b);
            assert(names[b] == init[b]);
            let q = choose|q: int|
                0 <= q < front.len() && #[trigger] is_mark_or_end(front[q], init[b], batch);
            assert(is_mark_or_end(all[q], names[b], batch));
        }
        n
    }
}

/// Whether a task writes the marker of a migration, or ends the run.
spec fn is_mark_or_end(t: TaskView, name: Seq<char>, batch: u32) -> bool {
    t == (TaskView::Mark { name, batch }) || t is Fail
}

spec fn was_done(tasks: Seq<TaskView>, p: int, name: Seq<char>, batch: u32) -> bool {
    exists|q: int| 0 <= q < p && #[trigger] is_mark_or_end(tasks[q], name, batch)
}

proof fn marks_of_all(files: Seq<FileView>, names: Seq<Seq<char>>, batch: u32, b: int)
    requires
        0 <= b < names.len(),
    ensures
        was_done(
            apply_all(files, names, batch),
            apply_all(files, names, batch).len() as int,
            names[b],
            batch,
        ),
    decreases names.len(),
{
    let init = names.drop_last();
    let front = apply_all(files, init, batch);
    let back = apply_tasks(files, names.last(), batch);
    let all = front + back;
    if b < init.len() {
        marks_of_all(files, init, batch, b);
        let q = choose|q: int|
            0 <= q < front.len() && #[trigger] is_mark_or_end(front[q], init[b], batch);
        assert(is_mark_or_end(all[q], names[b], batch));
    } else {
        assert(is_mark_or_end(back.last(), names[b], batch));
        assert(is_mark_or_end(all[all.len() - 1], names[b], batch));
    }
}

/// The marker that request `i` of an `up` writes.
proof fn up_marks_at(
    files: Seq<FileView>,
    steps: Option<u32>,
    replies: Seq<ReplyView>,
    i: int,
) -> (r: (Seq<Seq<char>>, u32))
    requires
        accepted(RunView { files, tasks: up_tasks(steps) }, replies),
        0 <= i < replies.len(),
        asked(RunView { files, tasks: up_tasks(steps) }, replies)[i] is InsertMarker,
    ensures
        i >= 3,
        replies[1] is Markers,
        r.0 == limited(pending(files, replies[1]->Markers_0), steps),
        i - 3 < apply_all(files, r.0, r.1).len(),
        apply_all(files, r.0, r.1)[i - 3] is Mark,
        forall|k: int|
            3 <= k < replies.len() ==> #[trigger] performed(
                RunView { files, tasks: up_tasks(steps) },
                replies,
            )[k] == apply_all(files, r.0, r.1)[k - 3],
        replies.len() - 3 <= apply_all(files, r.0, r.1).len(),
{
    let run = RunView { files, tasks: up_tasks(steps) };
    let plan = up_plan(files, steps, replies);
    let done = performed(run, replies);
    up_follows_its_plan(files, steps, replies);
    assert(done[i] == plan[i]);
    each_reply(run, replies, i);
    let head = up_tasks(steps);
    assert(head[0] is DefineMarkers && head[1] is PlanUp);
    if i < 2 {
        assert(plan[i] == head[i]);
    }
    assert(plan[i] is Mark);
    let names = limited(pending(files, replies[1]->Markers_0), steps);
    let first = head.push(TaskView::PlanBatch { names });
    assert(first[2] is PlanBatch);
    assert(plan[2] == first[2]);
    let batch = (top_batch(replies[2]->Markers_0) + 1) as u32;
    assert(plan == first + apply_all(files, names, batch));
    assert forall|k: int| 3 <= k < replies.len() implies #[trigger] done[k] == apply_all(
        files,
        names,
        batch,
    )[k - 3] by {
        assert(done[k] == plan[k]);
    }
    (names, batch)
}

/// An `up` applies the migrations in the order of their names, and leaves none out: before
/// the marker of a migration it has written those of all pending ones that stand before it.
pub proof fn up_applies_in_order(
    files: Seq<FileView>,
    steps: Option<u32>,
    replies: Seq<ReplyView>,
    i: int,
)
    requires
        accepted(RunView { files, tasks: up_tasks(steps) }, replies),
        0 <= i < replies.len(),
        asked(RunView { files, tasks: up_tasks(steps) }, replies)[i] is InsertMarker,
    ensures
        ({
            let requests = asked(RunView { files, tasks: up_tasks(steps) }, replies);
            let name = requests[i]->InsertMarker_name;
            &&& replies[1] is Markers
            &&& forall|k: int|
                0 <= k < i && (#[trigger] requests[k]) is InsertMarker ==> before(
                    requests[k]->InsertMarker_name,
                    name,
                )
            &&& forall|n: Seq<char>|
                before(n, name) && #[trigger] pending(files, replies[1]->Markers_0).contains(n)
                    ==> marked_before(requests, i, n)
        }),
{
    let run = RunView { files, tasks: up_tasks(steps) };
    let requests = asked(run, replies);
    let done = performed(run, replies);
    let (names, batch) = up_marks_at(files, steps, replies, i);
    let records = replies[1]->Markers_0;
    let all = apply_all(files, names, batch);
    let left = pending(files, records);
    performed_len(run, replies);
    pending_is_what_no_record_names(files, records);
    let a = marks_before(files, names, batch, i - 3);
    assert(done[i] == all[i - 3]);
    let name = names[a];
    assert(requests[i]->InsertMarker_name == name);
    assert forall|k: int| 0 <= k < i && (#[trigger] requests[k]) is InsertMarker implies before(
        requests[k]->InsertMarker_name,
        name,
    ) by {
        up_marks_at(files, steps, replies, k);
        each_reply(run, replies, k);
        assert(done[k] is Mark);
        assert(done[k] == all[k - 3]);
        let x = requests[k]->InsertMarker_name;
        assert(all[k - 3] == (TaskView::Mark { name: x, batch: requests[k]->InsertMarker_batch }));
        let c = names.take(a).index_of(x);
        assert(names[c] == x);
        assert(left[c] == x && left[a] == name);
    }
    assert forall|n: Seq<char>|
        before(n, name) && #[trigger] left.contains(n) implies marked_before(requests, i, n) by {
        let c = left.index_of(n);
        assert(left[a] == name);
        if c == a {
            before_is_irreflexive(n);
        } else if c > a {
            assert(before(left[a], left[c]));
            before_is_transitive(n, name, n);
            before_is_irreflexive(n);
        }
        assert(names[c] == n);
        assert(was_done(all, i - 3, names[c], batch));
        let q = choose|q: int| 0 <= q < i - 3 && #[trigger] is_mark_or_end(all[q], names[c], batch);
        assert(done[q + 3] == all[q + 3 - 3]);
        each_reply(run, replies, q + 3);
        assert(requests[q + 3] == (RequestView::InsertMarker { name: n, batch }));
        assert(marks(requests[q + 3], n));
    }
}

/// Whether a request writes the marker of a migration.
pub open spec fn marks(request: RequestView, name: Seq<char>) -> bool {
    request matches RequestView::InsertMarker { name: n, .. } && n == name
}

/// Whether one of the first `i` requests writes the marker of a migration.
pub open spec fn marked_before(requests: Seq<RequestView>, i: int, name: Seq<char>) -> bool {
    exists|k: int| 0 <= k < i && #[trigger] marks(requests[k], name)
}

/// The place of a migration whose marker is deleted, and those of the ones before it.
proof fn unmarks_before(files: Seq<FileView>, names: Seq<Seq<char>>, p: int) -> (a: int)
    requires
        0 <= p < rollback_all(files, names).len(),
        rollback_all(files, names)[p] is Unmark,
    ensures
        0 <= a < names.len(),
        rollback_all(files, names)[p] == (TaskView::Unmark { name: names[a] }),
        forall|b: int|
            0 <= b < a ==> was_undone(rollback_all(files, names), p, #[trigger] names[b]),
    decreases names.len(),
{
    let init = names.drop_last();
    let n = names.len() - 1;
    let front = rollback_all(files, init);
    let back = rollback_tasks(files, names.last());
    let all = rollback_all(files, names);
    assert(all == front + back);
    if p < front.len() {
        assert(front[p] == all[p]);
        let a = unmarks_before(files, init, p);
        assert(names[a] == init[a]);
        assert forall|b: int| 0 <= b < a implies was_undone(all, p, #[trigger] names[b]) by {
            assert(names[b] == init[b]);
            assert(was_undone(front, p, init[b]));
            let q = choose|q: int| 0 <= q < p && #[trigger] is_unmark_or_end(front[q], init[b]);
            assert(is_unmark_or_end(all[q], names[b]));
        }
        a
    } else {
        assert(all[p] == back[p - front.len()]);
        assert forall|b: int| 0 <= b < n implies was_undone(all, p, #[trigger] names[b]) by {
            unmarks_of_all(files, init, b);
            assert(names[b] == init[b]);
            let q = choose|q: int|
                0 <= q < front.len() && #[trigger] is_unmark_or_end(front[q], init[b]);
            assert(is_unmark_or_end(all[q], names[b]));
        }
        n
    }
}

/// Whether a task deletes the marker of a migration, or ends the run.
spec fn is_unmark_or_end(t: TaskView, name: Seq<char>) -> bool {
    t == (TaskView::Unmark { name }) || t is Fail
}

spec fn was_undone(tasks: Seq<TaskView>, p: int, name: Seq<char>) -> bool {
    exists|q: int| 0 <= q < p && #[trigger] is_unmark_or_end(tasks[q], name)
}

proof fn unmarks_of_all(files: Seq<FileView>, names: Seq<Seq<char>>, b: int)
    requires
        0 <= b < names.len(),
    ensures
        was_undone(
            rollback_all(files, names),
            rollback_all(files, names).len() as int,
            names[b],
        ),
    decreases names.len(),
{
    let init = names.drop_last();
    let front = rollback_all(files, init);
    let back = rollback_tasks(files, names.last());
    let all = front + back;
    if b < init.len() {
        unmarks_of_all(files, init, b);
        let q = choose|q: int|
            0 <= q < front.len() && #[trigger] is_unmark_or_end(front[q], init[b]);
        assert(is_unmark_or_end(all[q], names[b]));
    } else {
        assert(is_unmark_or_end(back.last(), names[b]));
        assert(is_unmark_or_end(all[all.len() - 1], names[b]));
    }
}

/// Whether a request deletes the marker of a migration.
pub open spec fn unmarks(request: RequestView, name: Seq<char>) -> bool {
    request == (RequestView::DeleteMarker { name })
}

/// Whether one of the first `i` requests deletes the marker of a migration.
pub open spec fn unmarked_before(requests: Seq<RequestView>, i: int, name: Seq<char>) -> bool {
    exists|k: int| 0 <= k < i && #[trigger] unmarks(requests[k], name)
}

/// A `down` rolls back one migration after the other, in the order of the list, and leaves
/// none out: before it deletes a marker it has deleted all those before it in the list.
pub proof fn down_goes_in_order(
    files: Seq<FileView>,
    steps: Option<u32>,
    replies: Seq<ReplyView>,
    i: int,
)
    requires
        accepted(RunView { files, tasks: down_tasks(steps) }, replies),
        0 <= i < replies.len(),
        asked(RunView { files, tasks: down_tasks(steps) }, replies)[i] is DeleteMarker,
    ensures
        ({
            let requests = asked(RunView { files, tasks: down_tasks(steps) }, replies);
            let names = to_roll_back(replies[1]->Markers_0, steps);
            &&& replies[1] is Markers
            &&& exists|a: int| #[trigger] is_next_in(names, a, requests, i)
        }),
{
    let run = RunView { files, tasks: down_tasks(steps) };
    let requests = asked(run, replies);
    let plan = down_plan(files, steps, replies);
    let done = performed(run, replies);
    down_follows_its_plan(files, steps, replies);
    assert(done[i] == plan[i]);
    each_reply(run, replies, i);
    let head = down_tasks(steps);
    assert(head[0] is DefineMarkers && head[1] is PlanDown);
    if i < 2 {
        assert(plan[i] == head[i]);
    }
    let names = to_roll_back(replies[1]->Markers_0, steps);
    let all = rollback_all(files, names);
    assert(plan[i] == all[i - 2]);
    let a = unmarks_before(files, names, i - 2);
    assert forall|b: int| 0 <= b < a implies unmarked_before(requests, i, #[trigger] names[b]) by {
        assert(was_undone(all, i - 2, names[b]));
        let q = choose|q: int| 0 <= q < i - 2 && #[trigger] is_unmark_or_end(all[q], names[b]);
        assert(done[q + 2] == plan[q + 2]);
        assert(plan[q + 2] == all[q]);
        each_reply(run, replies, q + 2);
        assert(unmarks(requests[q + 2], names[b]));
    }
    assert(is_next_in(names, a, requests, i));
}

/// Whether request `i` deletes the marker of `names[a]`, and all names before that one have
/// been dealt with.
pub open spec fn is_next_in(
    names: Seq<Seq<char>>,
    a: int,
    requests: Seq<RequestView>,
    i: int,
) -> bool {
    &&& 0 <= a < names.len()
    &&& requests[i] == (RequestView::DeleteMarker { name: names[a] })
    &&& forall|b: int| 0 <= b < a ==> unmarked_before(requests, i, #[trigger] names[b])
}

/// Whether a task says the truth of the file that it comes from: a statement has its place
/// in the file, and the tables to look for are those that the file defines.
spec fn is_faithful(files: Seq<FileView>, t: TaskView) -> bool {
    match t {
        TaskView::Statement { direction, name, number, sql } => {
            &&& file_text(files, path_of(direction, name)) is Ok
            &&& 1 <= number <= statements(file_text(files, path_of(direction, name))->Ok_0).len()
            &&& statements(file_text(files, path_of(direction, name))->Ok_0)[number - 1] == sql
        },
        TaskView::Verify { name, expected } => {
            &&& file_text(files, up_path(name)) is Ok
            &&& expected == defined_tables(file_text(files, up_path(name))->Ok_0)
        },
        _ => true,
    }
}

spec fn all_faithful(files: Seq<FileView>, tasks: Seq<TaskView>) -> bool {
    forall|i: int| 0 <= i < tasks.len() ==> #[trigger] is_faithful(files, tasks[i])
}

proof fn faithful_concat(files: Seq<FileView>, a: Seq<TaskView>, b: Seq<TaskView>)
    requires
        all_faithful(files, a),
        all_faithful(files, b),
    ensures
        all_faithful(files, a + b),
{
    assert forall|i: int| 0 <= i < (a + b).len() implies #[trigger] is_faithful(
        files,
        (a + b)[i],
    ) by {
        if i < a.len() {
            assert(is_faithful(files, a[i]));
        } else {
            assert(is_faithful(files, b[i - a.len()]));
        }
    }
}

proof fn apply_all_is_faithful(files: Seq<FileView>, names: Seq<Seq<char>>, batch: u32)
    ensures
        all_faithful(files, apply_all(files, names, batch)),
    decreases names.len(),
{
    if names.len() > 0 {
        apply_all_is_faithful(files, names.drop_last(), batch);
        let ts = apply_tasks(files, names.last(), batch);
        assert(all_faithful(files, ts));
        faithful_concat(files, apply_all(files, names.drop_last(), batch), ts);
    }
}

proof fn rollback_all_is_faithful(files: Seq<FileView>, names: Seq<Seq<char>>)
    ensures
        all_faithful(files, rollback_all(files, names)),
    decreases names.len(),
{
    if names.len() > 0 {
        rollback_all_is_faithful(files, names.drop_last());
        let ts = rollback_tasks(files, names.last());
        assert(all_faithful(files, ts));
        faithful_concat(files, rollback_all(files, names.drop_last()), ts);
    }
}

proof fn drop_tasks_are_faithful(files: Seq<FileView>, tables: Seq<Seq<char>>)
    ensures
        all_faithful(files, drop_tasks(tables)),
    decreases tables.len(),
{
    if tables.len() > 0 {
        drop_tasks_are_faithful(files, tables.drop_last());
        let a = drop_tasks(tables.drop_last());
        let all = drop_tasks(tables);
        assert forall|i: int| 0 <= i < all.len() implies #[trigger] is_faithful(files, all[i]) by {
            if i < a.len() {
                assert(is_faithful(files, a[i]));
            }
        }
    }
}

proof fn effect_is_faithful(files: Seq<FileView>, t: TaskView, reply: ReplyView)
    ensures
        effect(files, t, reply) matches Effect::Then(next) ==> all_faithful(files, next),
{
    match (t, reply) {
        (TaskView::PlanBatch { names }, ReplyView::Markers(records)) => {
            apply_all_is_faithful(files, names, (top_batch(records) + 1) as u32);
        },
        (TaskView::PlanDown { steps }, ReplyView::Markers(records)) => {
            rollback_all_is_faithful(files, to_roll_back(records, steps));
        },
        (TaskView::PlanDownAll, ReplyView::Markers(records)) => {
            rollback_all_is_faithful(files, latest_first(records));
        },
        (TaskView::PlanFresh, ReplyView::Tables(tables)) => {
            let a = drop_tasks(listed(tables));
            drop_tasks_are_faithful(files, listed(tables));
            faithful_concat(files, a, seq![TaskView::ClearMarkers]);
            assert(a + seq![TaskView::ClearMarkers] =~= a.push(TaskView::ClearMarkers));
            faithful_concat(files, a.push(TaskView::ClearMarkers), up_tasks(None));
        },
        _ => {},
    }
}

proof fn runs_are_faithful(run: RunView, replies: Seq<ReplyView>, i: int)
    requires
        all_faithful(run.files, run.tasks),
        accepted(run, replies),
        0 <= i < replies.len(),
    ensures
        performed(run, replies).len() == replies.len(),
        is_faithful(run.files, performed(run, replies)[i]),
    decreases replies.len(),
{
    performed_len(run, replies);
    if i == 0 {
        assert(is_faithful(run.files, run.tasks[0]));
    } else {
        let reply = replies.first();
        effect_is_faithful(run.files, run.tasks[0], reply);
        let next = effect(run.files, run.tasks[0], reply)->Then_0;
        let rest = run.tasks.drop_first();
        assert forall|k: int| 0 <= k < rest.len() implies #[trigger] is_faithful(
            run.files,
            rest[k],
        ) by {
            assert(is_faithful(run.files, run.tasks[k + 1]));
        }
        faithful_concat(run.files, next, rest);
        let now = run.resumed(reply)->Waiting_0;
        runs_are_faithful(now, replies.drop_first(), i - 1);
        assert(performed(run, replies)[i] == performed(now, replies.drop_first())[i - 1]);
    }
}

proof fn commands_are_faithful(run: RunView, replies: Seq<ReplyView>, i: int)
    requires
        is_command(run.tasks),
        accepted(run, replies),
        0 <= i < replies.len(),
    ensures
        performed(run, replies).len() == replies.len(),
        is_faithful(run.files, performed(run, replies)[i]),
{
    assert(all_faithful(run.files, run.tasks)) by {
        assert forall|k: int| 0 <= k < run.tasks.len() implies #[trigger] is_faithful(
            run.files,
            run.tasks[k],
        ) by {}
    }
    runs_are_faithful(run, replies, i);
}

/// Whether an error tells of a refused statement what there is to tell: the migration and
/// the number of the statement in its file, counted from 1, its text (cut to 200 bytes),
/// and what the database said.
pub open spec fn tells_of(
    files: Seq<FileView>,
    error: ErrorView,
    sql: Seq<char>,
    cause: Seq<char>,
) -> bool {
    match error {
        ErrorView::Apply { name, stmt, sql: shown, cause: said } => {
            &&& file_text(files, up_path(name)) is Ok
            &&& 1 <= stmt <= statements(file_text(files, up_path(name))->Ok_0).len()
            &&& statements(file_text(files, up_path(name))->Ok_0)[stmt - 1] == sql
            &&& shown == truncated(sql, 200)
            &&& said == cause
        },
        ErrorView::Rollback { name, stmt, sql: shown, cause: said } => {
            &&& file_text(files, down_path(name)) is Ok
            &&& 1 <= stmt <= statements(file_text(files, down_path(name))->Ok_0).len()
            &&& statements(file_text(files, down_path(name))->Ok_0)[stmt - 1] == sql
            &&& shown == truncated(sql, 200)
            &&& said == cause
        },
        _ => false,
    }
}

/// A refused statement ends the run, with an error that tells of it; any other refused
/// request ends it with what the database said.
pub proof fn a_refusal_is_told(run: RunView, replies: Seq<ReplyView>, cause: Seq<char>)
    requires
        is_command(run.tasks),
        accepted(run, replies),
        replies.len() > 0,
        replies.last() == ReplyView::Failed(cause),
    ensures
        asked(run, replies).len() == replies.len(),
        played(run, replies) matches ProgressView::Finished(Err(error)) && match asked(
            run,
            replies,
        ).last() {
            RequestView::Execute { sql } => tells_of(run.files, error, sql, cause),
            _ => error == ErrorView::Database(cause),
        },
{
    let n = replies.len() - 1;
    commands_are_faithful(run, replies, n);
    refused_last(run, replies, cause);
}

proof fn refused_last(run: RunView, replies: Seq<ReplyView>, cause: Seq<char>)
    requires
        accepted(run, replies),
        replies.len() > 0,
        replies.last() == ReplyView::Failed(cause),
    ensures
        performed(run, replies).len() == replies.len(),
        !(performed(run, replies).last() is Fail),
        played(run, replies) matches ProgressView::Finished(Err(error)) && Effect::Stop(
            Err(error),
        ) == effect(run.files, performed(run, replies).last(), ReplyView::Failed(cause)),
    decreases replies.len(),
{
    performed_len(run, replies);
    if replies.len() > 1 {
        let now = run.resumed(replies.first())->Waiting_0;
        refused_last(now, replies.drop_first(), cause);
        assert(performed(run, replies).last() == performed(now, replies.drop_first()).last());
    }
}

/// If a run ends because tables are missing, its last request looked at the tables, the
/// error names a migration, the tables that its `up` file defines, and those of them that
/// the database does not have.
pub proof fn missing_tables_are_told(
    run: RunView,
    replies: Seq<ReplyView>,
    name: Seq<char>,
    expected: Seq<Seq<char>>,
    missing: Seq<Seq<char>>,
)
    requires
        is_command(run.tasks),
        accepted(run, replies),
        played(run, replies) == ProgressView::Finished(
            Err(ErrorView::Verification { name, expected, missing }),
        ),
    ensures
        replies.len() > 0,
        replies.last() is Tables,
        file_text(run.files, up_path(name)) is Ok,
        expected == defined_tables(file_text(run.files, up_path(name))->Ok_0),
        missing.len() > 0,
        forall|t: Seq<char>| #[trigger]
            missing.contains(t) <==> expected.contains(t) && !listed(
                replies.last()->Tables_0,
            ).contains(t),
{
    let n = replies.len() - 1;
    an_error_has_a_cause(run, replies);
    commands_are_faithful(run, replies, n);
    assert(performed(run, replies)[n] == performed(run, replies).last());
    let existing = listed(replies.last()->Tables_0);
    let p = |t: Seq<char>| !existing.contains(t);
    assert(missing == expected.filter(p));
    assert forall|t: Seq<char>| #[trigger]
        missing.contains(t) <==> expected.contains(t) && !existing.contains(t) by {
        if missing.contains(t) {
            let k = missing.index_of(t);
            expected.lemma_filter_pred(p, k);
            expected.lemma_filter_contains_rev(p, t);
        }
        if expected.contains(t) && !existing.contains(t) {
            expected.lemma_filter_contains(p, expected.index_of(t));
        }
    }
}

/// Whether a request changes the database by what a migration says.
pub open spec fn is_change(request: RequestView) -> bool {
    request is Execute || request is InsertMarker
}

/// `fresh` first removes the tables, then deletes the markers, and only then applies
/// anything: nothing that it applies is removed again.
pub proof fn fresh_clears_before_it_applies(
    files: Seq<FileView>,
    replies: Seq<ReplyView>,
    i: int,
    j: int,
)
    requires
        accepted(RunView { files, tasks: seq![TaskView::PlanFresh] }, replies),
        0 <= i < j < replies.len(),
        is_change(asked(RunView { files, tasks: seq![TaskView::PlanFresh] }, replies)[i]),
    ensures
        ({
            let requests = asked(RunView { files, tasks: seq![TaskView::PlanFresh] }, replies);
            &&& !(requests[j] is DropTable)
            &&& !(requests[j] is ClearMarkers)
            &&& requests.take(i).contains(RequestView::ClearMarkers)
        }),
{
    let run = RunView { files, tasks: seq![TaskView::PlanFresh] };
    let requests = asked(run, replies);
    let plan = fresh_plan(files, replies);
    let done = performed(run, replies);
    fresh_follows_its_plan(files, replies);
    each_reply(run, replies, i);
    each_reply(run, replies, j);
    assert(done[i] == plan[i] && done[j] == plan[j]);
    assert(plan[0] == TaskView::PlanFresh);
    let drops = drop_tasks(listed(replies[0]->Tables_0));
    let clear = seq![TaskView::PlanFresh] + drops.push(TaskView::ClearMarkers);
    let n = clear.len() as int;
    let up = up_plan(files, None, later(replies, n));
    assert(plan == clear + up);
    only_drops(listed(replies[0]->Tables_0));
    assert(i >= n) by {
        if i < n {
            assert(plan[i] == clear[i]);
            if 0 < i < n - 1 {
                assert(clear[i] == drops[i - 1]);
            }
        }
    }
    applies_only(files, None, later(replies, n));
    assert(plan[j] == up[j - n]);
    assert(plan[n - 1] == clear[n - 1]);
    assert(done[n - 1] == plan[n - 1]);
    assert(requests[n - 1] == RequestView::ClearMarkers);
    assert(requests.take(i)[n - 1] == RequestView::ClearMarkers);
}

proof fn only_drops(tables: Seq<Seq<char>>)
    ensures
        forall|i: int|
            0 <= i < drop_tasks(tables).len() ==> #[trigger] drop_tasks(tables)[i] is DropTable,
    decreases tables.len(),
{
    if tables.len() > 0 {
        only_drops(tables.drop_last());
    }
}

/// Whether a task is one of those that apply migrations.
spec fn is_forward(t: TaskView) -> bool {
    match t {
        TaskView::DefineMarkers => true,
        TaskView::PlanUp { .. } => true,
        TaskView::PlanBatch { .. } => true,
        TaskView::Statement { direction: Direction::Up, .. } => true,
        TaskView::Verify { .. } => true,
        TaskView::Mark { .. } => true,
        TaskView::Fail { .. } => true,
        _ => false,
    }
}

proof fn apply_all_is_forward(files: Seq<FileView>, names: Seq<Seq<char>>, batch: u32)
    ensures
        forall|i: int|
            0 <= i < apply_all(files, names, batch).len() ==> is_forward(
                #[trigger] apply_all(files, names, batch)[i],
            ),
    decreases names.len(),
{
    if names.len() > 0 {
        apply_all_is_forward(files, names.drop_last(), batch);
        let a = apply_all(files, names.drop_last(), batch);
        let b = apply_tasks(files, names.last(), batch);
        let all = apply_all(files, names, batch);
        assert forall|i: int| 0 <= i < all.len() implies is_forward(#[trigger] all[i]) by {
            if i < a.len() {
                assert(all[i] == a[i]);
            } else {
                assert(all[i] == b[i - a.len()]);
            }
        }
    }
}

proof fn applies_only(files: Seq<FileView>, steps: Option<u32>, replies: Seq<ReplyView>)
    ensures
        forall|i: int|
            0 <= i < up_plan(files, steps, replies).len() ==> is_forward(
                #[trigger] up_plan(files, steps, replies)[i],
            ),
{
    if replies.len() > 2 && replies[1] is Markers && replies[2] is Markers {
        apply_all_is_forward(
            files,
            limited(pending(files, replies[1]->Markers_0), steps),
            (top_batch(replies[2]->Markers_0) + 1) as u32,
        );
    }
}

/// `refresh` first rolls back, and only then applies: once it has written a marker, it
/// deletes none.
pub proof fn refresh_rolls_back_before_it_applies(
    files: Seq<FileView>,
    replies: Seq<ReplyView>,
    i: int,
    j: int,
)
    requires
        accepted(
            RunView { files, tasks: seq![TaskView::DefineMarkers, TaskView::PlanRefresh] },
            replies,
        ),
        0 <= i < j < replies.len(),
        asked(
            RunView { files, tasks: seq![TaskView::DefineMarkers, TaskView::PlanRefresh] },
            replies,
        )[i] is InsertMarker,
    ensures
        !(asked(
            RunView { files, tasks: seq![TaskView::DefineMarkers, TaskView::PlanRefresh] },
            replies,
        )[j] is DeleteMarker),
{
    let first = seq![TaskView::DefineMarkers, TaskView::PlanRefresh];
    let run = RunView { files, tasks: first };
    let plan = refresh_plan(files, replies);
    let done = performed(run, replies);
    refresh_follows_its_plan(files, replies);
    each_reply(run, replies, i);
    each_reply(run, replies, j);
    assert(done[i] == plan[i] && done[j] == plan[j]);
    assert(plan[i] is Mark);
    assert(first[0] is DefineMarkers && first[1] is PlanRefresh);
    if i < 2 {
        assert(plan[i] == first[i]);
    }
    let after = later(replies, 2);
    if replies[1]->Markers_0.len() > 0 {
        let down = down_all_plan(files, after);
        let n = 2 + down.len();
        let rest = later(after, down.len() as int);
        let up = up_plan(files, None, rest);
        assert(plan == first + down + up);
        if i < n {
            assert(plan[i] == down[i - 2]);
            let looks = down_all_tasks();
            assert(looks[0] is DefineMarkers && looks[1] is PlanDownAll);
            if i - 2 < 2 {
                assert(down[i - 2] == looks[i - 2]);
            } else {
                let names = latest_first(after[1]->Markers_0);
                rollback_all_has_no_marks(files, names);
                assert(down[i - 2] == rollback_all(files, names)[i - 4]);
            }
        }
        applies_only(files, None, rest);
        assert(plan[j] == up[j - n]);
    } else {
        applies_only(files, None, after);
        assert(plan[j] == up_plan(files, None, after)[j - 2]);
    }
}

/// `fresh` removes the tables one by one, in the order in which they were listed.
pub proof fn fresh_drops_in_order(files: Seq<FileView>, replies: Seq<ReplyView>, i: int)
    requires
        accepted(RunView { files, tasks: seq![TaskView::PlanFresh] }, replies),
        replies.len() > 0,
        replies[0] is Tables,
        0 <= i < listed(replies[0]->Tables_0).filter(|t: Seq<char>| t != "_migrations"@).len(),
        i + 1 < replies.len(),
    ensures
        asked(RunView { files, tasks: seq![TaskView::PlanFresh] }, replies)[i + 1] == (
        RequestView::DropTable {
            table: listed(replies[0]->Tables_0).filter(|t: Seq<char>| t != "_migrations"@)[i],
        }),
{
    let run = RunView { files, tasks: seq![TaskView::PlanFresh] };
    let tables = listed(replies[0]->Tables_0);
    let plan = fresh_plan(files, replies);
    fresh_follows_its_plan(files, replies);
    drops_are_filtered(tables);
    let drops = drop_tasks(tables);
    let clear = seq![TaskView::PlanFresh] + drops.push(TaskView::ClearMarkers);
    assert(performed(run, replies)[i + 1] == plan[i + 1]);
    assert(plan[i + 1] == clear[i + 1]);
    assert(clear[i + 1] == drops[i]);
}

proof fn drops_are_filtered(tables: Seq<Seq<char>>)
    ensures
        drop_tasks(tables).len() == tables.filter(|t: Seq<char>| t != "_migrations"@).len(),
        forall|i: int|
            0 <= i < drop_tasks(tables).len() ==> #[trigger] drop_tasks(tables)[i] == (
            TaskView::DropTable { table: tables.filter(|t: Seq<char>| t != "_migrations"@)[i] }),
    decreases tables.len(),
{
    reveal(Seq::filter);
    if tables.len() > 0 {
        drops_are_filtered(tables.drop_last());
        let a = drop_tasks(tables.drop_last());
        let all = drop_tasks(tables);
        let p = |t: Seq<char>| t != "_migrations"@;
        assert forall|i: int| 0 <= i < all.len() implies #[trigger] all[i] == (
        TaskView::DropTable { table: tables.filter(p)[i] }) by {
            if i < a.len() {
                assert(all[i] == a[i]);
            }
        }
    }
}

/// `refresh` rolls back one migration after the other, the one applied last first, and
/// leaves none out.
pub proof fn refresh_goes_in_order(files: Seq<FileView>, replies: Seq<ReplyView>, i: int)
    requires
        accepted(
            RunView { files, tasks: seq![TaskView::DefineMarkers, TaskView::PlanRefresh] },
            replies,
        ),
        0 <= i < replies.len(),
        asked(
            RunView { files, tasks: seq![TaskView::DefineMarkers, TaskView::PlanRefresh] },
            replies,
        )[i] is DeleteMarker,
    ensures
        i > 3,
        replies[3] is Markers,
        ({
            let tasks = seq![TaskView::DefineMarkers, TaskView::PlanRefresh];
            let requests = asked(RunView { files, tasks }, replies);
            let names = latest_first(replies[3]->Markers_0);
            exists|a: int| #[trigger] is_next_in(names, a, requests, i)
        }),
{
    let first = seq![TaskView::DefineMarkers, TaskView::PlanRefresh];
    let run = RunView { files, tasks: first };
    let requests = asked(run, replies);
    let plan = refresh_plan(files, replies);
    let done = performed(run, replies);
    refresh_follows_its_plan(files, replies);
    each_reply(run, replies, i);
    assert(done[i] == plan[i]);
    assert(plan[i] is Unmark);
    assert(first[0] is DefineMarkers && first[1] is PlanRefresh);
    if i < 2 {
        assert(plan[i] == first[i]);
    }
    let after = later(replies, 2);
    if replies[1]->Markers_0.len() == 0 {
        applies_only(files, None, after);
        assert(plan[i] == up_plan(files, None, after)[i - 2]);
        assert(false);
    }
    let down = down_all_plan(files, after);
    let n = 2 + down.len();
    let rest = later(after, down.len() as int);
    let up = up_plan(files, None, rest);
    assert(plan == first + down + up);
    if i >= n {
        applies_only(files, None, rest);
        assert(plan[i] == up[i - n]);
        assert(false);
    }
    assert(plan[i] == down[i - 2]);
    let looks = down_all_tasks();
    assert(looks[0] is DefineMarkers && looks[1] is PlanDownAll);
    if i - 2 < 2 {
        assert(down[i - 2] == looks[i - 2]);
        assert(false);
    }
    assert(after[1] == replies[3]);
    let names = latest_first(replies[3]->Markers_0);
    let all = rollback_all(files, names);
    assert(down[i - 2] == all[i - 4]);
    let a = unmarks_before(files, names, i - 4);
    assert forall|b: int| 0 <= b < a implies unmarked_before(requests, i, #[trigger] names[b]) by {
        assert(was_undone(all, i - 4, names[b]));
        let q = choose|q: int| 0 <= q < i - 4 && #[trigger] is_unmark_or_end(all[q], names[b]);
        assert(done[q + 4] == plan[q + 4]);
        assert(plan[q + 4] == down[q + 2]);
        assert(down[q + 2] == all[q]);
        each_reply(run, replies, q + 4);
        assert(unmarks(requests[q + 4], names[b]));
    }
    assert(is_next_in(names, a, requests, i));
}

/// A run takes every refusal and every answer that is of the kind it asked for, and no other
/// reply. Only when it looks for a batch number does it need one that is left.
pub proof fn a_run_takes_every_answer(run: RunView, reply: ReplyView)
    requires
        run.waits(),
    ensures
        run.accepts(reply) <==> match reply {
            ReplyView::Failed(_) => true,
            ReplyView::Tables(_) => run.request() is ListTables,
            ReplyView::Markers(records) => run.request() is SelectMarkers && !(
            run.tasks[0] is PlanBatch && exists|k: int|
                0 <= k < records.len() && (#[trigger] records[k]).batch == Some(u32::MAX)),
            ReplyView::Done => !(run.request() is ListTables || run.request() is SelectMarkers),
        },
{
    if let ReplyView::Markers(records) = reply {
        top_batch_is_highest(records);
    }
}

/// The tables that a reply lists are all the names in it, as they stand there.
pub proof fn a_reply_lists_all_its_tables(names: Seq<Seq<char>>, i: int)
    ensures
        listed(Some(names)).len() == names.len(),
        0 <= i < names.len() ==> listed(Some(names))[i] == names[i],
        listed(None).len() == 0,
{
}

/// The migration at hand is the one whose marker is asked for, or whose file a statement
/// comes from.
pub proof fn the_migration_at_hand_is_known(t: TaskView)
    ensures
        match t {
            TaskView::Statement { name, .. } => t.migration() == Some(name),
            TaskView::Verify { name, .. } => t.migration() == Some(name),
            TaskView::Mark { name, batch } => t.migration() == Some(name) && t.request() == (
            RequestView::InsertMarker { name, batch }),
            TaskView::Unmark { name } => t.migration() == Some(name) && t.request() == (
            RequestView::DeleteMarker { name }),
            _ => t.migration() is None,
        },
        t matches TaskView::Statement { sql, .. } ==> t.request() == (RequestView::Execute { sql }),
        t matches TaskView::DropTable { table } ==> t.request() == (RequestView::DropTable {
            table,
        }),
{
}

/// A statement is sent as it stands in the file. A table is named in backquotes, behind the
/// same words whichever it is. What is sent for a marker does not depend on its name and its
/// number, which go along with it.
pub proof fn texts_of_requests_are_fixed(
    sql: Seq<char>,
    a: Seq<char>,
    b: Seq<char>,
    x: u32,
    y: u32,
)
    ensures
        (RequestView::Execute { sql }).sql() == sql,
        (RequestView::InsertMarker { name: a, batch: x }).sql() == (RequestView::InsertMarker {
            name: b,
            batch: y,
        }).sql(),
        (RequestView::DeleteMarker { name: a }).sql() == (RequestView::DeleteMarker {
            name: b,
        }).sql(),
        exists|front: Seq<char>| #[trigger] names_tables(front),
{
    reveal_strlit("REMOVE TABLE IF EXISTS `");
    reveal_strlit("`");
    let front = "REMOVE TABLE IF EXISTS `"@.drop_last();
    assert forall|table: Seq<char>| (#[trigger] drop_request(table)).sql() == front + seq!['`']
        + table + seq!['`'] by {
        assert(drop_request(table).sql() =~= front + seq!['`'] + table + seq!['`']);
    }
    assert(names_tables(front));
}

/// Whether the request to remove a table is the given words and its name in backquotes.
pub open spec fn names_tables(front: Seq<char>) -> bool {
    forall|table: Seq<char>| (#[trigger] drop_request(table)).sql() == front + seq!['`'] + table
        + seq!['`']
}

/// Whether a task is one of those that roll migrations back.
spec fn is_backward(t: TaskView) -> bool {
    t is Statement || t is Unmark || t is Fail
}

/// A rollback that is refused nothing and fails has come to a task that is to fail.
proof fn end_of_rollback(run: RunView, replies: Seq<ReplyView>, p: spec_fn(ErrorView) -> bool)
    requires
        forall|i: int| 0 <= i < run.tasks.len() ==> is_backward(#[trigger] run.tasks[i]),
        forall|i: int|
            0 <= i < run.tasks.len() ==> (#[trigger] run.tasks[i] matches TaskView::Fail { error }
                ==> p(error)),
        accepted(run, replies),
        replies.len() > 0,
        played(run, replies) matches ProgressView::Finished(Err(_)),
        !(replies.last() is Failed),
    ensures
        p(played(run, replies)->Finished_0->Err_0),
    decreases replies.len(),
{
    let reply = replies.first();
    let rest = run.tasks.drop_first();
    assert(is_backward(run.tasks[0]));
    if let Effect::Then(next) = effect(run.files, run.tasks[0], reply) {
        assert(next + rest =~= rest);
        if rest.len() > 0 {
            assert(rest[0] == run.tasks[1]);
        }
        if let ProgressView::Waiting(now) = run.resumed(reply) {
            assert forall|i: int| 0 <= i < now.tasks.len() implies is_backward(
                #[trigger] now.tasks[i],
            ) && (now.tasks[i] matches TaskView::Fail { error } ==> p(error)) by {
                assert(now.tasks[i] == run.tasks[i + 1]);
            }
            if replies.len() > 1 {
                end_of_rollback(now, replies.drop_first(), p);
            }
        }
    }
}

/// Whether an error says that the `down` file of one of the given migrations cannot be
/// read.
pub open spec fn is_down_fault(
    files: Seq<FileView>,
    names: Seq<Seq<char>>,
    error: ErrorView,
) -> bool {
    exists|name: Seq<char>|
        names.contains(name) && #[trigger] file_text(files, down_path(name)) is Err && match error {
            ErrorView::NoDownFile(n) => n == name,
            _ => file_text(files, down_path(name)) == Err::<Seq<char>, ErrorView>(error),
        }
}

proof fn faults_of_rollback_all(files: Seq<FileView>, names: Seq<Seq<char>>, i: int)
    requires
        0 <= i < rollback_all(files, names).len(),
    ensures
        is_backward(rollback_all(files, names)[i]),
        rollback_all(files, names)[i] matches TaskView::Fail { error } ==> is_down_fault(
            files,
            names,
            error,
        ),
    decreases names.len(),
{
    let init = names.drop_last();
    let name = names.last();
    let a = rollback_all(files, init);
    let b = rollback_tasks(files, name);
    let all = rollback_all(files, names);
    assert(names[names.len() - 1] == name);
    if i < a.len() {
        faults_of_rollback_all(files, init, i);
        assert(all[i] == a[i]);
        if let TaskView::Fail { error } = all[i] {
            let n = choose|n: Seq<char>|
                init.contains(n) && #[trigger] file_text(files, down_path(n)) is Err
                    && match error {
                    ErrorView::NoDownFile(m) => m == n,
                    _ => file_text(files, down_path(n)) == Err::<Seq<char>, ErrorView>(error),
                };
            assert(names[init.index_of(n)] == n);
            assert(names.contains(n));
        }
    } else {
        assert(all[i] == b[i - a.len()]);
        if let TaskView::Fail { error } = all[i] {
            assert(names.contains(name));
            assert(file_text(files, down_path(name)) is Err);
        }
    }
}

proof fn fault_after_the_look(
    files: Seq<FileView>,
    steps: Option<u32>,
    replies: Seq<ReplyView>,
)
    requires
        accepted(RunView { files, tasks: seq![TaskView::PlanDown { steps }] }, replies),
        replies.len() > 0,
        !(replies.last() is Failed),
        played(
            RunView { files, tasks: seq![TaskView::PlanDown { steps }] },
            replies,
        ) matches ProgressView::Finished(Err(_)),
    ensures
        replies[0] is Markers,
        is_down_fault(
            files,
            to_roll_back(replies[0]->Markers_0, steps),
            played(
                RunView { files, tasks: seq![TaskView::PlanDown { steps }] },
                replies,
            )->Finished_0->Err_0,
        ),
{
    let run = RunView { files, tasks: seq![TaskView::PlanDown { steps }] };
    assert(run.tasks[0] == (TaskView::PlanDown { steps }));
    assert(run.accepts(replies[0]));
    if replies.len() == 1 {
        assert(replies[0] == replies.last());
    }
    let names = to_roll_back(replies[0]->Markers_0, steps);
    let ts = rollback_all(files, names);
    assert(ts + run.tasks.drop_first() =~= ts);
    let p = |e: ErrorView| is_down_fault(files, names, e);
    assert forall|i: int| 0 <= i < ts.len() implies is_backward(#[trigger] ts[i]) && (
    ts[i] matches TaskView::Fail { error } ==> p(error)) by {
        faults_of_rollback_all(files, names, i);
    }
    if let ProgressView::Waiting(now) = run.resumed(replies[0]) {
        assert(now.tasks == ts);
        end_of_rollback(now, replies.drop_first(), p);
    } else {
        assert(ts[0] is Fail);
    }
}

/// A `down` that is refused nothing and still fails cannot read the `down` file of a
/// migration that it is to roll back. A missing file is told by the name of the migration.
pub proof fn down_fails_for_its_own_files(
    files: Seq<FileView>,
    steps: Option<u32>,
    replies: Seq<ReplyView>,
)
    requires
        accepted(RunView { files, tasks: down_tasks(steps) }, replies),
        replies.len() > 0,
        !(replies.last() is Failed),
        played(RunView { files, tasks: down_tasks(steps) }, replies) matches ProgressView::Finished(
            Err(_),
        ),
    ensures
        replies.len() > 1,
        replies[1] is Markers,
        is_down_fault(
            files,
            to_roll_back(replies[1]->Markers_0, steps),
            played(RunView { files, tasks: down_tasks(steps) }, replies)->Finished_0->Err_0,
        ),
{
    let run = RunView { files, tasks: down_tasks(steps) };
    let run1 = RunView { files, tasks: seq![TaskView::PlanDown { steps }] };
    assert(Seq::<TaskView>::empty() + run.tasks.drop_first() =~= run1.tasks);
    assert(run.tasks[0] == TaskView::DefineMarkers);
    if replies.len() == 1 {
        assert(replies[0] == replies.last());
    }
    assert(run.resumed(replies[0]) == ProgressView::Waiting(run1));
    let later = replies.drop_first();
    assert(played(run, replies) == played(run1, later));
    assert(later.len() > 0);
    assert(later.last() == replies.last());
    fault_after_the_look(files, steps, later);
    assert(later[0] == replies[1]);
}

/// A run that has done the applications of the given migrations has written their markers.
proof fn mark_was_asked(
    run: RunView,
    replies: Seq<ReplyView>,
    first: Seq<TaskView>,
    names: Seq<Seq<char>>,
    batch: u32,
    a: int,
)
    requires
        accepted(run, replies),
        performed(run, replies) == first + apply_all(run.files, names, batch),
        0 <= a < names.len(),
    ensures
        marked_before(asked(run, replies), replies.len() as int, names[a]),
{
    let all = apply_all(run.files, names, batch);
    performed_len(run, replies);
    marks_of_all(run.files, names, batch, a);
    let q = choose|q: int|
        0 <= q < all.len() && #[trigger] is_mark_or_end(all[q], names[a], batch);
    let k = first.len() + q;
    assert(performed(run, replies)[k] == all[q]);
    each_reply(run, replies, k);
    assert(marks(asked(run, replies)[k], names[a]));
}

/// A run that has done the rollbacks of the given migrations has deleted their markers.
proof fn unmark_was_asked(
    run: RunView,
    replies: Seq<ReplyView>,
    first: Seq<TaskView>,
    names: Seq<Seq<char>>,
    rest: Seq<TaskView>,
    a: int,
)
    requires
        accepted(run, replies),
        performed(run, replies) == first + rollback_all(run.files, names) + rest,
        0 <= a < names.len(),
    ensures
        unmarked_before(asked(run, replies), replies.len() as int, names[a]),
{
    let all = rollback_all(run.files, names);
    performed_len(run, replies);
    unmarks_of_all(run.files, names, a);
    let q = choose|q: int| 0 <= q < all.len() && #[trigger] is_unmark_or_end(all[q], names[a]);
    let k = first.len() + q;
    assert(performed(run, replies)[k] == all[q]);
    each_reply(run, replies, k);
    assert(unmarks(asked(run, replies)[k], names[a]));
}

/// An `up` that ends well has applied every migration that it was to apply: it has written
/// the marker of each of the first `steps` that were pending.
pub proof fn up_leaves_nothing_out(
    files: Seq<FileView>,
    steps: Option<u32>,
    replies: Seq<ReplyView>,
)
    requires
        accepted(RunView { files, tasks: up_tasks(steps) }, replies),
        played(RunView { files, tasks: up_tasks(steps) }, replies) matches ProgressView::Finished(
            Ok(_),
        ),
    ensures
        replies.len() > 1,
        replies[1] is Markers,
        forall|a: int|
            0 <= a < limited(pending(files, replies[1]->Markers_0), steps).len() ==> marked_before(
                asked(RunView { files, tasks: up_tasks(steps) }, replies),
                replies.len() as int,
                #[trigger] limited(pending(files, replies[1]->Markers_0), steps)[a],
            ),
{
    let run = RunView { files, tasks: up_tasks(steps) };
    let plan = up_plan(files, steps, replies);
    let head = up_tasks(steps);
    up_follows_its_plan(files, steps, replies);
    assert(head[0] is DefineMarkers && head[1] is PlanUp);
    assert(plan[1] == head[1]);
    each_reply(run, replies, 1);
    let found = pending(files, replies[1]->Markers_0);
    let names = limited(found, steps);
    if names.len() > 0 {
        let first = head.push(TaskView::PlanBatch { names });
        assert(found.len() > 0);
        assert(first[2] is PlanBatch);
        assert(plan[2] == first[2]);
        each_reply(run, replies, 2);
        let batch = (top_batch(replies[2]->Markers_0) + 1) as u32;
        assert(plan == first + apply_all(files, names, batch));
        assert forall|a: int| 0 <= a < names.len() implies marked_before(
            asked(run, replies),
            replies.len() as int,
            #[trigger] names[a],
        ) by {
            mark_was_asked(run, replies, first, names, batch, a);
        }
    }
}

/// A `down` that ends well has rolled back every migration that it was to roll back: it has
/// deleted the marker of each of them.
pub proof fn down_leaves_nothing_out(
    files: Seq<FileView>,
    steps: Option<u32>,
    replies: Seq<ReplyView>,
)
    requires
        accepted(RunView { files, tasks: down_tasks(steps) }, replies),
        played(RunView { files, tasks: down_tasks(steps) }, replies) matches ProgressView::Finished(
            Ok(_),
        ),
    ensures
        replies.len() > 1,
        replies[1] is Markers,
        forall|a: int|
            0 <= a < to_roll_back(replies[1]->Markers_0, steps).len() ==> unmarked_before(
                asked(RunView { files, tasks: down_tasks(steps) }, replies),
                replies.len() as int,
                #[trigger] to_roll_back(replies[1]->Markers_0, steps)[a],
            ),
{
    let run = RunView { files, tasks: down_tasks(steps) };
    let plan = down_plan(files, steps, replies);
    let head = down_tasks(steps);
    let none = Seq::<TaskView>::empty();
    down_follows_its_plan(files, steps, replies);
    assert(head[0] is DefineMarkers && head[1] is PlanDown);
    assert(plan[1] == head[1]);
    each_reply(run, replies, 1);
    let names = to_roll_back(replies[1]->Markers_0, steps);
    let all = rollback_all(files, names);
    assert(plan =~= head + all + none);
    assert forall|a: int| 0 <= a < names.len() implies unmarked_before(
        asked(run, replies),
        replies.len() as int,
        #[trigger] names[a],
    ) by {
        unmark_was_asked(run, replies, head, names, none, a);
    }
}

/// A `refresh` that ends well has rolled back everything: if it found a record, it looked
/// at the records once more and deleted the marker of each of them.
pub proof fn refresh_leaves_nothing_out(files: Seq<FileView>, replies: Seq<ReplyView>)
    requires
        accepted(
            RunView { files, tasks: seq![TaskView::DefineMarkers, TaskView::PlanRefresh] },
            replies,
        ),
        played(
            RunView { files, tasks: seq![TaskView::DefineMarkers, TaskView::PlanRefresh] },
            replies,
        ) matches ProgressView::Finished(Ok(_)),
    ensures
        replies.len() > 3,
        replies[1] is Markers,
        replies[1]->Markers_0.len() > 0 ==> {
            let tasks = seq![TaskView::DefineMarkers, TaskView::PlanRefresh];
            let requests = asked(RunView { files, tasks }, replies);
            &&& replies[3] is Markers
            &&& forall|a: int|
                0 <= a < replies[3]->Markers_0.len() ==> unmarked_before(
                    requests,
                    replies.len() as int,
                    (#[trigger] replies[3]->Markers_0[a]).name,
                )
        },
{
    let first = seq![TaskView::DefineMarkers, TaskView::PlanRefresh];
    let run = RunView { files, tasks: first };
    let requests = asked(run, replies);
    let plan = refresh_plan(files, replies);
    refresh_follows_its_plan(files, replies);
    assert(first[0] is DefineMarkers && first[1] is PlanRefresh);
    assert(plan[1] == first[1]);
    each_reply(run, replies, 1);
    let after = later(replies, 2);
    if replies[1]->Markers_0.len() > 0 {
        let down = down_all_plan(files, after);
        let looks = down_all_tasks();
        let up = up_plan(files, None, later(after, down.len() as int));
        assert(looks[0] is DefineMarkers && looks[1] is PlanDownAll);
        assert(down[1] == looks[1]);
        assert(plan == first + down + up);
        assert(plan[3] == down[1]);
        each_reply(run, replies, 3);
        let records = replies[3]->Markers_0;
        assert(after[1] == replies[3]);
        let names = latest_first(records);
        assert(down == looks + rollback_all(files, names));
        assert(plan =~= (first + looks) + rollback_all(files, names) + up);
        assert forall|a: int| 0 <= a < records.len() implies unmarked_before(
            requests,
            replies.len() as int,
            (#[trigger] records[a]).name,
        ) by {
            let name = records[a].name;
            latest_first_has_every_name(records, name);
            assert(record_names(records)[a] == name);
            assert(names.contains(name));
            unmark_was_asked(run, replies, first + looks, names, up, names.index_of(name));
        }
    } else {
        let up = up_plan(files, None, after);
        assert(plan == first + up);
        assert(up.len() >= 2);
    }
}

} // verus!
