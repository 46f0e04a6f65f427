//! What runs do to the rows of the table of markers, batch numbers included, against a
//! database that keeps them as it is asked.

use vstd::multiset::Multiset;
use vstd::prelude::*;

use crate::conversation::{
    accepted, asked, each_reply, performed, performed_len, played, requests_of,
};
use crate::files::{migration_names, FileView};
use crate::history::{
    latest_first, latest_first_has_every_name, limited, pending, record_names, record_of,
    record_of_is_some, status_of, statuses, to_roll_back, top_batch, RecordView, StatusView,
};
use crate::laws::{
    down_all_plan, down_follows_its_plan, down_plan, fresh_follows_its_plan, fresh_plan, later,
    refresh_follows_its_plan, refresh_plan, status_reports_every_migration, top_batch_is_highest,
    up_follows_its_plan, up_plan,
};
use crate::markers::{filter_keeps_all, performed_are_requests};
use crate::migrator::{ProgressView, ReportView, RunView};
use crate::plan::{
    apply_all, apply_tasks, down_all_tasks, down_tasks, drop_tasks, rollback_all, rollback_tasks,
    up_tasks, TaskView,
};
use crate::protocol::{listed, ReplyView, RequestView};

verus! {

broadcast use vstd::multiset::group_multiset_axioms;

/// The rows of the table of markers after the given requests, if all of them are carried
/// out. The statements of migrations leave that table alone.
pub open spec fn rows(
    before: Multiset<RecordView>,
    requests: Seq<RequestView>,
) -> Multiset<RecordView>
    decreases requests.len(),
{
    if requests.len() == 0 {
        before
    } else {
        let m = rows(before, requests.drop_last());
        match requests.last() {
            RequestView::InsertMarker { name, batch } => m.insert(
                RecordView { name, batch: Some(batch) },
            ),
            RequestView::DeleteMarker { name } => m.filter(|r: RecordView| r.name != name),
            RequestView::ClearMarkers => Multiset::empty(),
            _ => m,
        }
    }
}

/// Whether the database gives the rows as the requests have left them.
pub open spec fn rows_kept(
    before: Multiset<RecordView>,
    run: RunView,
    replies: Seq<ReplyView>,
) -> bool {
    forall|k: int|
        0 <= k < replies.len() && asked(run, replies)[k] is SelectMarkers
            && #[trigger] replies[k] is Markers ==> replies[k]->Markers_0.to_multiset() == rows(
            before,
            asked(run, replies).take(k),
        )
}

/// One row for each name, all of the same batch.
pub open spec fn batch_rows(names: Seq<Seq<char>>, batch: u32) -> Multiset<RecordView> {
    names.map_values(|n: Seq<char>| RecordView { name: n, batch: Some(batch) }).to_multiset()
}

proof fn rows_of_two(before: Multiset<RecordView>, a: Seq<RequestView>, b: Seq<RequestView>)
    ensures
        rows(before, a + b) == rows(rows(before, a), b),
    decreases b.len(),
{
    if b.len() == 0 {
        assert(a + b =~= a);
    } else {
        rows_of_two(before, a, b.drop_last());
        assert((a + b).drop_last() =~= a + b.drop_last());
    }
}

proof fn rows_of_tasks(before: Multiset<RecordView>, a: Seq<TaskView>, b: Seq<TaskView>)
    ensures
        rows(before, requests_of(a + b)) == rows(rows(before, requests_of(a)), requests_of(b)),
{
    assert(requests_of(a + b) =~= requests_of(a) + requests_of(b));
    rows_of_two(before, requests_of(a), requests_of(b));
}

/// Requests that have nothing to do with the rows change nothing.
proof fn rows_unchanged(before: Multiset<RecordView>, tasks: Seq<TaskView>)
    requires
        forall|i: int|
            0 <= i < tasks.len() ==> {
                let r = (#[trigger] tasks[i]).request();
                !(r is InsertMarker || r is DeleteMarker || r is ClearMarkers)
            },
    ensures
        rows(before, requests_of(tasks)) == before,
    decreases tasks.len(),
{
    if tasks.len() > 0 {
        assert(requests_of(tasks).drop_last() =~= requests_of(tasks.drop_last()));
        rows_unchanged(before, tasks.drop_last());
        assert(requests_of(tasks).last() == tasks.last().request());
    }
}

proof fn rows_of_last(before: Multiset<RecordView>, tasks: Seq<TaskView>)
    requires
        tasks.len() > 0,
    ensures
        rows(before, requests_of(tasks)) == rows(
            rows(before, requests_of(tasks.drop_last())),
            seq![tasks.last().request()],
        ),
{
    let last = seq![tasks.last()];
    assert(tasks =~= tasks.drop_last() + last);
    rows_of_tasks(before, tasks.drop_last(), last);
    assert(requests_of(last) =~= seq![tasks.last().request()]);
}

proof fn rows_of_one(before: Multiset<RecordView>, r: RequestView)
    ensures
        rows(before, seq![r]) == match r {
            RequestView::InsertMarker { name, batch } => before.insert(
                RecordView { name, batch: Some(batch) },
            ),
            RequestView::DeleteMarker { name } => before.filter(|r: RecordView| r.name != name),
            RequestView::ClearMarkers => Multiset::empty(),
            _ => before,
        },
{
    assert(seq![r].drop_last() =~= Seq::empty());
    assert(rows(before, Seq::empty()) == before);
}

proof fn rows_of_apply(
    files: Seq<FileView>,
    names: Seq<Seq<char>>,
    batch: u32,
    before: Multiset<RecordView>,
)
    requires
        forall|i: int|
            0 <= i < apply_all(files, names, batch).len() ==> !(#[trigger] apply_all(
                files,
                names,
                batch,
            )[i] is Fail),
    ensures
        rows(before, requests_of(apply_all(files, names, batch))) == before.add(
            batch_rows(names, batch),
        ),
    decreases names.len(),
{
    broadcast use vstd::seq_lib::group_to_multiset_ensures;

    let f = |n: Seq<char>| RecordView { name: n, batch: Some(batch) };
    if names.len() == 0 {
        assert(names.map_values(f) =~= Seq::empty());
        assert(before.add(batch_rows(names, batch)) =~= before);
    } else {
        let init = names.drop_last();
        let name = names.last();
        let a = apply_all(files, init, batch);
        let b = apply_tasks(files, name, batch);
        let mark = TaskView::Mark { name, batch };
        assert(apply_all(files, names, batch) == a + b);
        assert forall|i: int| 0 <= i < a.len() implies !(#[trigger] a[i] is Fail) by {
            assert((a + b)[i] == a[i]);
        }
        rows_of_apply(files, init, batch, before);
        assert((a + b)[a.len() as int] == b[0]);
        let m = rows(before, requests_of(a));
        rows_of_tasks(before, a, b);
        rows_of_last(m, b);
        assert(b.last() == mark);
        rows_unchanged(m, b.drop_last());
        rows_of_one(m, mark.request());
        assert(names.map_values(f) =~= init.map_values(f).push(f(name)));
        assert(before.add(batch_rows(init, batch)).insert(f(name)) =~= before.add(
            batch_rows(names, batch),
        ));
    }
}

/// After the rollback of the given names no row has one of them, and the others are as
/// they were.
proof fn rows_of_rollback(
    files: Seq<FileView>,
    names: Seq<Seq<char>>,
    before: Multiset<RecordView>,
)
    requires
        forall|i: int|
            0 <= i < rollback_all(files, names).len() ==> !(#[trigger] rollback_all(
                files,
                names,
            )[i] is Fail),
    ensures
        rows(before, requests_of(rollback_all(files, names))) == before.filter(
            |r: RecordView| !names.contains(r.name),
        ),
    decreases names.len(),
{
    let gone = |r: RecordView| !names.contains(r.name);
    if names.len() == 0 {
        assert(before.filter(gone) =~= before);
    } else {
        let init = names.drop_last();
        let name = names.last();
        let a = rollback_all(files, init);
        let b = rollback_tasks(files, name);
        let unmark = TaskView::Unmark { name };
        assert(rollback_all(files, names) == a + b);
        assert forall|i: int| 0 <= i < a.len() implies !(#[trigger] a[i] is Fail) by {
            assert((a + b)[i] == a[i]);
        }
        rows_of_rollback(files, init, before);
        assert((a + b)[a.len() as int] == b[0]);
        let m = rows(before, requests_of(a));
        rows_of_tasks(before, a, b);
        rows_of_last(m, b);
        assert(b.last() == unmark);
        rows_unchanged(m, b.drop_last());
        rows_of_one(m, unmark.request());
        assert forall|n: Seq<char>| names.contains(n) <==> init.contains(n) || n == name by {
            if names.contains(n) {
                let k = names.index_of(n);
                if k < init.len() {
                    assert(init[k] == n);
                }
            }
            if init.contains(n) {
                assert(names[init.index_of(n)] == n);
            }
            assert(names[names.len() - 1] == name);
        }
        assert(m.filter(|r: RecordView| r.name != name) =~= before.filter(gone));
    }
}

/// A look at the rows gives them as the tasks before it have left them.
proof fn rows_seen(
    run: RunView,
    replies: Seq<ReplyView>,
    seen: Seq<TaskView>,
    before: Multiset<RecordView>,
)
    requires
        accepted(run, replies),
        rows_kept(before, run, replies),
        played(run, replies) matches ProgressView::Finished(Ok(_)),
        seen.len() < replies.len(),
        performed(run, replies).take(seen.len() as int) == seen,
        performed(run, replies)[seen.len() as int].request() is SelectMarkers,
    ensures
        replies[seen.len() as int] is Markers,
        replies[seen.len() as int]->Markers_0.to_multiset() == rows(before, requests_of(seen)),
{
    let k = seen.len() as int;
    each_reply(run, replies, k);
    assert(asked(run, replies).take(k) =~= requests_of(seen)) by {
        assert forall|i: int| 0 <= i < k implies #[trigger] performed(run, replies)[i]
            == seen[i] by {
            assert(performed(run, replies).take(k)[i] == performed(run, replies)[i]);
        }
    }
    assert(asked(run, replies)[k] is SelectMarkers);
}

/// The highest batch number does not depend on the order of the rows.
proof fn top_batch_of_same(a: Seq<RecordView>, b: Seq<RecordView>)
    requires
        a.to_multiset() == b.to_multiset(),
    ensures
        top_batch(a) == top_batch(b),
{
    top_batch_at_most(a, b);
    top_batch_at_most(b, a);
}

proof fn top_batch_at_most(a: Seq<RecordView>, b: Seq<RecordView>)
    requires
        a.to_multiset() == b.to_multiset(),
    ensures
        top_batch(a) <= top_batch(b),
{
    broadcast use vstd::seq_lib::group_to_multiset_ensures;

    top_batch_is_highest(a);
    top_batch_is_highest(b);
    if top_batch(a) > 0 {
        let i = choose|i: int|
            0 <= i < a.len() && (#[trigger] a[i]).batch == Some(top_batch(a) as u32);
        assert(a.contains(a[i]));
        assert(a.to_multiset().count(a[i]) > 0);
        assert(b.contains(a[i]));
        let j = b.index_of(a[i]);
        assert(b[j].batch == Some(top_batch(a) as u32));
    }
}

/// What an `up` at the end of a run found and left: the rows of one batch more, for the
/// pending migrations that it reached.
proof fn rows_of_last_up(
    run: RunView,
    head: Seq<TaskView>,
    steps: Option<u32>,
    before: Multiset<RecordView>,
    replies: Seq<ReplyView>,
)
    requires
        accepted(run, replies),
        rows_kept(before, run, replies),
        played(run, replies) matches ProgressView::Finished(Ok(_)),
        performed(run, replies) == head + up_plan(
            run.files,
            steps,
            later(replies, head.len() as int),
        ),
    ensures
        head.len() + 1 < replies.len(),
        replies[1 + head.len() as int] is Markers,
        ({
            let found = rows(before, requests_of(head));
            let records = replies[1 + head.len() as int]->Markers_0;
            let names = limited(pending(run.files, records), steps);
            &&& records.to_multiset() == found
            &&& pending(run.files, records).len() > 0 ==> top_batch(records) < u32::MAX
            &&& rows(before, asked(run, replies)) == found.add(
                batch_rows(names, (top_batch(records) + 1) as u32),
            )
        }),
{
    broadcast use vstd::seq_lib::group_to_multiset_ensures;

    let files = run.files;
    let n = head.len() as int;
    let last = later(replies, n);
    let up = up_plan(files, steps, last);
    let found = rows(before, requests_of(head));
    let done = performed(run, replies);
    performed_len(run, replies);
    performed_are_requests(run, replies);
    assert(last.len() == up.len());
    let define = seq![TaskView::DefineMarkers];
    assert(up[1] == (TaskView::PlanUp { steps }));
    assert(done[n + 1] == up[1]);
    assert(done.take(n + 1) =~= head + define);
    rows_seen(run, replies, head + define, before);
    rows_of_tasks(before, head, define);
    rows_unchanged(found, define);
    rows_of_tasks(before, head, up);
    let records = replies[n + 1]->Markers_0;
    assert(last[1] == replies[n + 1]);
    let all = pending(files, records);
    let names = limited(all, steps);
    let f = |x: Seq<char>| RecordView { name: x, batch: Some((top_batch(records) + 1) as u32) };
    if all.len() == 0 {
        rows_unchanged(found, up_tasks(steps));
        assert(names.map_values(f) =~= Seq::empty());
        assert(found.add(batch_rows(names, (top_batch(records) + 1) as u32)) =~= found);
    } else {
        let lead = up_tasks(steps).push(TaskView::PlanBatch { names });
        assert(up[2] is PlanBatch);
        assert(done[n + 2] == up[2]);
        assert(up_tasks(steps) =~= define + seq![TaskView::PlanUp { steps }]);
        assert(done.take(n + 2) =~= head + up_tasks(steps));
        rows_seen(run, replies, head + up_tasks(steps), before);
        rows_of_tasks(before, head, up_tasks(steps));
        rows_unchanged(found, up_tasks(steps));
        each_reply(run, replies, n + 2);
        assert(last[2] == replies[n + 2]);
        top_batch_of_same(records, replies[n + 2]->Markers_0);
        let batch = (top_batch(records) + 1) as u32;
        let ts = apply_all(files, names, batch);
        assert(up == lead + ts);
        assert forall|i: int| 0 <= i < ts.len() implies !(#[trigger] ts[i] is Fail) by {
            assert(done[n + 3 + i] == ts[i]);
        }
        rows_unchanged(found, lead);
        rows_of_tasks(found, lead, ts);
        rows_of_apply(files, names, batch, found);
    }
}

/// An `up` that ends well adds one row for each migration that it applied, all of the
/// batch after the highest that it found, and leaves the other rows as they were.
pub proof fn up_adds_one_batch(
    files: Seq<FileView>,
    steps: Option<u32>,
    before: Multiset<RecordView>,
    replies: Seq<ReplyView>,
)
    requires
        ({
            let run = RunView { files, tasks: up_tasks(steps) };
            &&& accepted(run, replies)
            &&& rows_kept(before, run, replies)
            &&& played(run, replies) matches ProgressView::Finished(Ok(_))
        }),
    ensures
        replies.len() > 1,
        replies[1] is Markers,
        ({
            let records = replies[1]->Markers_0;
            &&& records.to_multiset() == before
            &&& pending(files, records).len() > 0 ==> top_batch(records) < u32::MAX
            &&& rows(before, asked(RunView { files, tasks: up_tasks(steps) }, replies))
                == before.add(
                batch_rows(
                    limited(pending(files, records), steps),
                    (top_batch(records) + 1) as u32,
                ),
            )
        }),
{
    let run = RunView { files, tasks: up_tasks(steps) };
    let none = Seq::<TaskView>::empty();
    up_follows_its_plan(files, steps, replies);
    assert(replies.skip(0) =~= replies);
    assert(later(replies, 0) =~= replies);
    assert(none + up_plan(files, steps, replies) =~= up_plan(files, steps, replies));
    rows_of_last_up(run, none, steps, before, replies);
    assert(requests_of(none) =~= Seq::empty());
}

/// A `down` that ends well removes the rows of the migrations that it rolled back, and
/// leaves all others as they were, batch numbers included.
pub proof fn down_removes_only_its_rows(
    files: Seq<FileView>,
    steps: Option<u32>,
    before: Multiset<RecordView>,
    replies: Seq<ReplyView>,
)
    requires
        ({
            let run = RunView { files, tasks: down_tasks(steps) };
            &&& accepted(run, replies)
            &&& rows_kept(before, run, replies)
            &&& played(run, replies) matches ProgressView::Finished(Ok(_))
        }),
    ensures
        replies.len() > 1,
        replies[1] is Markers,
        replies[1]->Markers_0.to_multiset() == before,
        rows(before, asked(RunView { files, tasks: down_tasks(steps) }, replies))
            == before.filter(
            |r: RecordView| !to_roll_back(replies[1]->Markers_0, steps).contains(r.name),
        ),
{
    let run = RunView { files, tasks: down_tasks(steps) };
    let plan = down_plan(files, steps, replies);
    let define = seq![TaskView::DefineMarkers];
    down_follows_its_plan(files, steps, replies);
    performed_are_requests(run, replies);
    assert(plan[1] == (TaskView::PlanDown { steps }));
    assert(plan.take(1) =~= define);
    rows_seen(run, replies, define, before);
    rows_unchanged(before, define);
    let names = to_roll_back(replies[1]->Markers_0, steps);
    let ts = rollback_all(files, names);
    assert forall|i: int| 0 <= i < ts.len() implies !(#[trigger] ts[i] is Fail) by {
        assert(plan[2 + i] == ts[i]);
    }
    rows_unchanged(before, down_tasks(steps));
    rows_of_tasks(before, down_tasks(steps), ts);
    rows_of_rollback(files, names, before);
}

/// Without rows everything is pending, and the first batch is next.
proof fn first_batch(files: Seq<FileView>, records: Seq<RecordView>)
    requires
        records.to_multiset() == Multiset::<RecordView>::empty(),
    ensures
        pending(files, records) == migration_names(files),
        top_batch(records) == 0,
{
    broadcast use vstd::seq_lib::group_to_multiset_ensures;

    assert(records.to_multiset().len() == records.len());
    assert(records.len() == 0);
    assert(record_names(records).len() == 0);
    filter_keeps_all(
        migration_names(files),
        |n: Seq<char>| !record_names(records).contains(n),
    );
}

/// After a `fresh` that ends well there is one row for each migration, all of batch 1,
/// whatever was there before.
pub proof fn fresh_leaves_one_batch(
    files: Seq<FileView>,
    before: Multiset<RecordView>,
    replies: Seq<ReplyView>,
)
    requires
        ({
            let run = RunView { files, tasks: seq![TaskView::PlanFresh] };
            &&& accepted(run, replies)
            &&& rows_kept(before, run, replies)
            &&& played(run, replies) matches ProgressView::Finished(Ok(_))
        }),
    ensures
        rows(before, asked(RunView { files, tasks: seq![TaskView::PlanFresh] }, replies))
            == batch_rows(migration_names(files), 1),
{
    let run = RunView { files, tasks: seq![TaskView::PlanFresh] };
    fresh_follows_its_plan(files, replies);
    each_reply(run, replies, 0);
    assert(fresh_plan(files, replies)[0] == TaskView::PlanFresh);
    assert(replies[0] is Tables);
    let tables = listed(replies[0]->Tables_0);
    let head = seq![TaskView::PlanFresh] + drop_tasks(tables).push(TaskView::ClearMarkers);
    rows_of_last_up(run, head, None, before, replies);
    rows_of_last(before, head);
    assert(head.last() == TaskView::ClearMarkers);
    rows_of_one(rows(before, requests_of(head.drop_last())), RequestView::ClearMarkers);
    first_batch(files, replies[1 + head.len() as int]->Markers_0);
    let empty = Multiset::<RecordView>::empty();
    assert(empty.add(batch_rows(migration_names(files), 1)) =~= batch_rows(
        migration_names(files),
        1,
    ));
}

/// The rows after the rollbacks of a `refresh`: none.
proof fn refresh_removes_all_rows(
    run: RunView,
    before: Multiset<RecordView>,
    replies: Seq<ReplyView>,
)
    requires
        accepted(run, replies),
        rows_kept(before, run, replies),
        played(run, replies) matches ProgressView::Finished(Ok(_)),
        ({
            let down = down_all_plan(run.files, later(replies, 2));
            performed(run, replies) == seq![TaskView::DefineMarkers, TaskView::PlanRefresh] + down
                + up_plan(run.files, None, later(later(replies, 2), down.len() as int))
        }),
    ensures
        rows(
            before,
            requests_of(
                seq![TaskView::DefineMarkers, TaskView::PlanRefresh] + down_all_plan(
                    run.files,
                    later(replies, 2),
                ),
            ),
        ) == Multiset::<RecordView>::empty(),
{
    let files = run.files;
    let first = seq![TaskView::DefineMarkers, TaskView::PlanRefresh];
    let define = seq![TaskView::DefineMarkers];
    let after = later(replies, 2);
    let down = down_all_plan(files, after);
    let plan = performed(run, replies);
    performed_len(run, replies);
    performed_are_requests(run, replies);
    let seen = first + define;
    assert(plan[3] == down[1]);
    assert(plan.take(3) =~= seen);
    rows_seen(run, replies, seen, before);
    rows_unchanged(before, seen);
    assert(after[1] == replies[3]);
    let again = replies[3]->Markers_0;
    let names = latest_first(again);
    let ts = rollback_all(files, names);
    assert(down == down_all_tasks() + ts);
    assert forall|i: int| 0 <= i < ts.len() implies !(#[trigger] ts[i] is Fail) by {
        assert(down[2 + i] == ts[i]);
        assert(plan[4 + i] == ts[i]);
    }
    let lead = first + down_all_tasks();
    assert(first + down =~= lead + ts);
    rows_unchanged(before, lead);
    rows_of_tasks(before, lead, ts);
    rows_of_rollback(files, names, before);
    let left = before.filter(|r: RecordView| !names.contains(r.name));
    assert forall|x: RecordView| left.count(x) == 0 by {
        if before.count(x) > 0 {
            assert(again.contains(x)) by {
                broadcast use vstd::seq_lib::group_to_multiset_ensures;

                assert(again.to_multiset().count(x) > 0);
            }
            let k = again.index_of(x);
            assert(record_names(again)[k] == x.name);
            latest_first_has_every_name(again, x.name);
        }
    }
    assert(left =~= Multiset::empty());
}

/// After a `refresh` that ends well there is one row for each migration, all of batch 1,
/// whatever was there before.
pub proof fn refresh_leaves_one_batch(
    files: Seq<FileView>,
    before: Multiset<RecordView>,
    replies: Seq<ReplyView>,
)
    requires
        ({
            let run = RunView {
                files,
                tasks: seq![TaskView::DefineMarkers, TaskView::PlanRefresh],
            };
            &&& accepted(run, replies)
            &&& rows_kept(before, run, replies)
            &&& played(run, replies) matches ProgressView::Finished(Ok(_))
        }),
    ensures
        rows(
            before,
            asked(
                RunView { files, tasks: seq![TaskView::DefineMarkers, TaskView::PlanRefresh] },
                replies,
            ),
        ) == batch_rows(migration_names(files), 1),
{
    let first = seq![TaskView::DefineMarkers, TaskView::PlanRefresh];
    let define = seq![TaskView::DefineMarkers];
    let run = RunView { files, tasks: first };
    let plan = refresh_plan(files, replies);
    refresh_follows_its_plan(files, replies);
    assert(plan[1] == TaskView::PlanRefresh);
    assert(plan.take(1) =~= define);
    rows_seen(run, replies, define, before);
    rows_unchanged(before, define);
    let records = replies[1]->Markers_0;
    assert(records.len() == before.len()) by {
        broadcast use vstd::seq_lib::group_to_multiset_ensures;

        assert(records.to_multiset().len() == records.len());
    }
    let after = later(replies, 2);
    let empty = Multiset::<RecordView>::empty();
    let names = migration_names(files);
    if records.len() > 0 {
        let down = down_all_plan(files, after);
        let head = first + down;
        refresh_removes_all_rows(run, before, replies);
        assert(later(after, down.len() as int) =~= later(replies, head.len() as int));
        rows_of_last_up(run, head, None, before, replies);
        first_batch(files, replies[1 + head.len() as int]->Markers_0);
    } else {
        assert(before =~= empty);
        rows_unchanged(before, first);
        rows_of_last_up(run, first, None, before, replies);
        first_batch(files, replies[1 + first.len() as int]->Markers_0);
    }
    assert(empty.add(batch_rows(names, 1)) =~= batch_rows(names, 1));
}

/// After a `fresh` or a `refresh` that ends well, `status` shows every migration as applied
/// in batch 1.
pub proof fn status_shows_one_batch(
    files: Seq<FileView>,
    tasks: Seq<TaskView>,
    before: Multiset<RecordView>,
    replies: Seq<ReplyView>,
    later_replies: Seq<ReplyView>,
)
    requires
        tasks == seq![TaskView::PlanFresh] || tasks == seq![
            TaskView::DefineMarkers,
            TaskView::PlanRefresh,
        ],
        ({
            let run = RunView { files, tasks };
            let status = RunView {
                files,
                tasks: seq![TaskView::DefineMarkers, TaskView::Report],
            };
            &&& accepted(run, replies)
            &&& rows_kept(before, run, replies)
            &&& played(run, replies) matches ProgressView::Finished(Ok(_))
            &&& accepted(status, later_replies)
            &&& rows_kept(rows(before, asked(run, replies)), status, later_replies)
            &&& played(status, later_replies) matches ProgressView::Finished(Ok(_))
        }),
    ensures
        played(
            RunView { files, tasks: seq![TaskView::DefineMarkers, TaskView::Report] },
            later_replies,
        ) == ProgressView::Finished(
            Ok(
                ReportView::Statuses(
                    migration_names(files).map_values(
                        |n: Seq<char>| StatusView { name: n, applied: true, batch: Some(1u32) },
                    ),
                ),
            ),
        ),
{
    let report = seq![TaskView::DefineMarkers, TaskView::Report];
    let status = RunView { files, tasks: report };
    let define = seq![TaskView::DefineMarkers];
    let names = migration_names(files);
    let then = rows(before, asked(RunView { files, tasks }, replies));
    if tasks == seq![TaskView::PlanFresh] {
        fresh_leaves_one_batch(files, before, replies);
    } else {
        refresh_leaves_one_batch(files, before, replies);
    }
    status_reports_every_migration(files, later_replies);
    assert(performed(status, later_replies)[1] == TaskView::Report);
    assert(performed(status, later_replies).take(1) =~= define);
    rows_seen(status, later_replies, define, then);
    rows_unchanged(then, define);
    let records = later_replies[1]->Markers_0;
    let list = statuses(files, records);
    let f = |n: Seq<char>| StatusView { name: n, applied: true, batch: Some(1u32) };
    assert forall|i: int| 0 <= i < names.len() implies list[i] == #[trigger] names.map_values(
        f,
    )[i] by {
        status_of_batch(records, names, 1, i);
    }
    assert(list =~= names.map_values(f));
}

/// The state of a migration whose rows are all of one batch.
proof fn status_of_batch(records: Seq<RecordView>, names: Seq<Seq<char>>, batch: u32, i: int)
    requires
        records.to_multiset() == batch_rows(names, batch),
        0 <= i < names.len(),
    ensures
        status_of(records, names[i]) == (StatusView {
            name: names[i],
            applied: true,
            batch: Some(batch),
        }),
{
    broadcast use vstd::seq_lib::group_to_multiset_ensures;

    let f = |n: Seq<char>| RecordView { name: n, batch: Some(batch) };
    let all = names.map_values(f);
    let name = names[i];
    assert(all[i] == f(name));
    assert(all.contains(f(name)));
    assert(all.to_multiset().count(f(name)) > 0);
    assert(records.contains(f(name)));
    assert(record_names(records)[records.index_of(f(name))] == name);
    record_of_is_some(records, name);
    let r = record_of(records, name)->0;
    assert(records.to_multiset().count(r) > 0);
    assert(all.contains(r));
    assert(all[all.index_of(r)] == r);
}

} // verus!
