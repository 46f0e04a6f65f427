//! What runs do to the markers, against a database that keeps them as it is asked.

use vstd::multiset::Multiset;
use vstd::prelude::*;

use crate::conversation::{
    accepted, asked, each_reply, performed, performed_len, played, requests_of,
};
use crate::files::{migration_names, FileView};
use crate::history::{
    latest_first, latest_first_has_every_name, limited, pending, record_names, record_of_is_some,
    statuses, to_roll_back, top_batch, RecordView,
};
use crate::laws::{
    a_failed_migration_stays_unmarked, applies, down_all_plan, down_follows_its_plan, down_plan,
    fresh_follows_its_plan, fresh_plan, later, migration_names_are_distinct, now_waits,
    refresh_follows_its_plan, refresh_plan, status_reports_every_migration, up_follows_its_plan,
    up_plan,
};
use crate::migrator::{ProgressView, ReportView, RunView};
use crate::plan::{
    apply_all, apply_tasks, down_all_tasks, down_tasks, drop_tasks, plan_up, rollback_all,
    rollback_tasks, up_tasks, TaskView,
};
use crate::protocol::{listed, ReplyView, RequestView};

verus! {

broadcast use vstd::multiset::group_multiset_axioms;

/// The names in the table of markers after the given requests, if all of them are
/// carried out. The statements of migrations leave that table alone.
pub open spec fn marked(
    before: Multiset<Seq<char>>,
    requests: Seq<RequestView>,
) -> Multiset<Seq<char>>
    decreases requests.len(),
{
    if requests.len() == 0 {
        before
    } else {
        let m = marked(before, requests.drop_last());
        match requests.last() {
            RequestView::InsertMarker { name, .. } => m.insert(name),
            RequestView::DeleteMarker { name } => m.filter(|n: Seq<char>| n != name),
            RequestView::ClearMarkers => Multiset::empty(),
            _ => m,
        }
    }
}

/// Whether the database gives the markers as the requests have left them.
pub open spec fn kept(
    before: Multiset<Seq<char>>,
    run: RunView,
    replies: Seq<ReplyView>,
) -> bool {
    forall|k: int|
        0 <= k < replies.len() && asked(run, replies)[k] is SelectMarkers
            && #[trigger] replies[k] is Markers ==> record_names(
            replies[k]->Markers_0,
        ).to_multiset() == marked(before, asked(run, replies).take(k))
}

/// The migrations without a marker, in order.
pub open spec fn unmarked(files: Seq<FileView>, markers: Multiset<Seq<char>>) -> Seq<Seq<char>> {
    migration_names(files).filter(|n: Seq<char>| !markers.contains(n))
}

/// The markers after `up`: one more for each of the first `steps` migrations that had
/// none.
pub open spec fn after_up(
    files: Seq<FileView>,
    steps: Option<u32>,
    markers: Multiset<Seq<char>>,
) -> Multiset<Seq<char>> {
    markers.add(limited(unmarked(files, markers), steps).to_multiset())
}

proof fn marked_concat(
    before: Multiset<Seq<char>>,
    a: Seq<RequestView>,
    b: Seq<RequestView>,
)
    ensures
        marked(before, a + b) == marked(marked(before, a), b),
    decreases b.len(),
{
    if b.len() == 0 {
        assert(a + b =~= a);
    } else {
        marked_concat(before, a, b.drop_last());
        assert((a + b).drop_last() =~= a + b.drop_last());
    }
}

proof fn requests_concat(a: Seq<TaskView>, b: Seq<TaskView>)
    ensures
        requests_of(a + b) == requests_of(a) + requests_of(b),
{
    assert(requests_of(a + b) =~= requests_of(a) + requests_of(b));
}

/// Requests that have nothing to do with the markers change nothing.
proof fn marked_unchanged(before: Multiset<Seq<char>>, tasks: Seq<TaskView>)
    requires
        forall|i: int|
            0 <= i < tasks.len() ==> {
                let r = (#[trigger] tasks[i]).request();
                !(r is InsertMarker || r is DeleteMarker || r is ClearMarkers)
            },
    ensures
        marked(before, requests_of(tasks)) == before,
    decreases tasks.len(),
{
    if tasks.len() > 0 {
        assert(requests_of(tasks).drop_last() =~= requests_of(tasks.drop_last()));
        marked_unchanged(before, tasks.drop_last());
        assert(requests_of(tasks).last() == tasks.last().request());
    }
}

proof fn marked_by_apply(files: Seq<FileView>, names: Seq<Seq<char>>, batch: u32, before: Multiset<
    Seq<char>,
>)
    requires
        forall|i: int|
            0 <= i < apply_all(files, names, batch).len() ==> !(#[trigger] apply_all(
                files,
                names,
                batch,
            )[i] is Fail),
    ensures
        marked(before, requests_of(apply_all(files, names, batch))) == before.add(
            names.to_multiset(),
        ),
    decreases names.len(),
{
    broadcast use vstd::seq_lib::group_to_multiset_ensures;

    if names.len() == 0 {
        assert(before.add(names.to_multiset()) =~= before);
    } else {
        let init = names.drop_last();
        let name = names.last();
        let a = apply_all(files, init, batch);
        let b = apply_tasks(files, name, batch);
        assert(apply_all(files, names, batch) == a + b);
        assert forall|i: int| 0 <= i < a.len() implies !(#[trigger] a[i] is Fail) by {
            assert((a + b)[i] == a[i]);
        }
        marked_by_apply(files, init, batch, before);
        assert((a + b)[a.len() as int] == b[0]);
        let mark = TaskView::Mark { name, batch };
        let c = b.drop_last();
        assert(b =~= c.push(mark));
        assert(requests_of(b) =~= requests_of(c).push(mark.request()));
        assert(requests_of(b).drop_last() =~= requests_of(c));
        let m = marked(before, requests_of(a));
        marked_unchanged(m, c);
        requests_concat(a, b);
        marked_concat(before, requests_of(a), requests_of(b));
        assert(names =~= init.push(name));
        assert(before.add(init.to_multiset()).insert(name) =~= before.add(names.to_multiset()));
    }
}

proof fn marked_by_rollback(files: Seq<FileView>, names: Seq<Seq<char>>, before: Multiset<
    Seq<char>,
>)
    requires
        forall|i: int|
            0 <= i < rollback_all(files, names).len() ==> !(#[trigger] rollback_all(
                files,
                names,
            )[i] is Fail),
    ensures
        marked(before, requests_of(rollback_all(files, names))) == before.filter(
            |n: Seq<char>| !names.contains(n),
        ),
    decreases names.len(),
{
    let gone = |n: Seq<char>| !names.contains(n);
    if names.len() == 0 {
        assert(before.filter(gone) =~= before);
    } else {
        let init = names.drop_last();
        let name = names.last();
        let a = rollback_all(files, init);
        let b = rollback_tasks(files, name);
        assert(rollback_all(files, names) == a + b);
        assert forall|i: int| 0 <= i < a.len() implies !(#[trigger] a[i] is Fail) by {
            assert((a + b)[i] == a[i]);
        }
        marked_by_rollback(files, init, before);
        assert((a + b)[a.len() as int] == b[0]);
        let unmark = TaskView::Unmark { name };
        let c = b.drop_last();
        assert(b =~= c.push(unmark));
        assert(requests_of(b) =~= requests_of(c).push(unmark.request()));
        assert(requests_of(b).drop_last() =~= requests_of(c));
        let m = marked(before, requests_of(a));
        marked_unchanged(m, c);
        requests_concat(a, b);
        marked_concat(before, requests_of(a), requests_of(b));
        assert forall|n: Seq<char>| names.contains(n) <==> init.contains(n) || n == name by {
            if names.contains(n) {
                let k = names.index_of(n);
                if k < init.len() {
                    assert(init[k] == n);
                }
            }
            if init.contains(n) {
                let k = init.index_of(n);
                assert(names[k] == n);
            }
            assert(names[names.len() - 1] == name);
        }
        assert(m.filter(|n: Seq<char>| n != name) =~= before.filter(gone));
    }
}

/// The tasks that were done are not failures.
pub(crate) proof fn performed_are_requests(run: RunView, replies: Seq<ReplyView>)
    requires
        accepted(run, replies),
    ensures
        forall|i: int|
            0 <= i < performed(run, replies).len() ==> !(#[trigger] performed(
                run,
                replies,
            )[i] is Fail),
{
    performed_len(run, replies);
    assert forall|i: int| 0 <= i < performed(run, replies).len() implies !(#[trigger] performed(
        run,
        replies,
    )[i] is Fail) by {
        each_reply(run, replies, i);
    }
}

/// With markers that were kept, what is pending is what is unmarked.
proof fn pending_is_unmarked(
    files: Seq<FileView>,
    records: Seq<RecordView>,
    markers: Multiset<Seq<char>>,
)
    requires
        record_names(records).to_multiset() == markers,
    ensures
        pending(files, records) == unmarked(files, markers),
{
    broadcast use vstd::seq_lib::group_to_multiset_ensures;

    let p = |n: Seq<char>| !record_names(records).contains(n);
    let q = |n: Seq<char>| !markers.contains(n);
    assert forall|n: Seq<char>| #[trigger]
        record_names(records).contains(n) == markers.contains(n) by {
        assert(record_names(records).contains(n) <==> record_names(
            records,
        ).to_multiset().count(n) > 0);
    }
    assert(p =~= q);
}

/// A look at the markers gives them as the requests before it have left them.
proof fn markers_seen(
    run: RunView,
    replies: Seq<ReplyView>,
    seen: Seq<TaskView>,
    markers: Multiset<Seq<char>>,
)
    requires
        accepted(run, replies),
        kept(markers, run, replies),
        played(run, replies) matches ProgressView::Finished(Ok(_)),
        seen.len() < replies.len(),
        performed(run, replies).take(seen.len() as int) == seen,
        performed(run, replies)[seen.len() as int].request() is SelectMarkers,
    ensures
        replies[seen.len() as int] is Markers,
        record_names(replies[seen.len() as int]->Markers_0).to_multiset() == marked(
            markers,
            requests_of(seen),
        ),
{
    let k = seen.len() as int;
    each_reply(run, replies, k);
    assert(asked(run, replies).take(k) =~= requests_of(seen)) by {
        assert forall|i: int| 0 <= i < k implies #[trigger] performed(run, replies)[i]
            == seen[i] by {
            assert(performed(run, replies).take(k)[i] == performed(run, replies)[i]);
        }
    }
    assert(asked(run, replies)[k] is SelectMarkers);
}

/// What a completed `up` does to the markers.
proof fn marked_by_up(
    files: Seq<FileView>,
    steps: Option<u32>,
    markers: Multiset<Seq<char>>,
    replies: Seq<ReplyView>,
)
    requires
        replies.len() == up_plan(files, steps, replies).len(),
        replies[1] is Markers,
        replies.len() > 2 ==> replies[2] is Markers,
        record_names(replies[1]->Markers_0).to_multiset() == markers,
        forall|i: int|
            0 <= i < replies.len() ==> !(#[trigger] up_plan(files, steps, replies)[i] is Fail),
    ensures
        marked(markers, requests_of(up_plan(files, steps, replies))) == after_up(
            files,
            steps,
            markers,
        ),
{
    broadcast use vstd::seq_lib::group_to_multiset_ensures;

    let plan = up_plan(files, steps, replies);
    let records = replies[1]->Markers_0;
    pending_is_unmarked(files, records, markers);
    let found = pending(files, records);
    let names = limited(found, steps);
    if found.len() == 0 {
        marked_unchanged(markers, up_tasks(steps));
        assert(names =~= Seq::empty());
        assert(after_up(files, steps, markers) =~= markers);
    } else {
        let head = up_tasks(steps).push(TaskView::PlanBatch { names });
        assert(replies.len() > 2);
        let batch = (top_batch(replies[2]->Markers_0) + 1) as u32;
        let ts = apply_all(files, names, batch);
        assert forall|i: int| 0 <= i < ts.len() implies !(#[trigger] ts[i] is Fail) by {
            assert(plan[head.len() + i] == ts[i]);
        }
        marked_unchanged(markers, head);
        requests_concat(head, ts);
        marked_concat(markers, requests_of(head), requests_of(ts));
        marked_by_apply(files, names, batch, markers);
    }
}

/// The end of a run is an `up`, and the run ended well.
proof fn marked_by_last_up(
    run: RunView,
    head: Seq<TaskView>,
    steps: Option<u32>,
    markers: Multiset<Seq<char>>,
    replies: Seq<ReplyView>,
)
    requires
        accepted(run, replies),
        kept(markers, run, replies),
        played(run, replies) matches ProgressView::Finished(Ok(_)),
        performed(run, replies) == head + up_plan(
            run.files,
            steps,
            later(replies, head.len() as int),
        ),
    ensures
        marked(markers, asked(run, replies)) == after_up(
            run.files,
            steps,
            marked(markers, requests_of(head)),
        ),
{
    let files = run.files;
    let n = head.len() as int;
    let last = later(replies, n);
    let up = up_plan(files, steps, last);
    let m = marked(markers, requests_of(head));
    performed_len(run, replies);
    performed_are_requests(run, replies);
    assert(last.len() == up.len());
    assert forall|i: int| 0 <= i < up.len() implies !(#[trigger] up[i] is Fail) by {
        assert(performed(run, replies)[n + i] == up[i]);
    }
    let define = seq![TaskView::DefineMarkers];
    assert(up[1] == (TaskView::PlanUp { steps }));
    assert(performed(run, replies)[n + 1] == up[1]);
    assert(performed(run, replies).take(n + 1) =~= head + define);
    markers_seen(run, replies, head + define, markers);
    requests_concat(head, define);
    marked_concat(markers, requests_of(head), requests_of(define));
    marked_unchanged(m, define);
    if up.len() > 2 {
        assert(up[2] is PlanBatch);
        assert(performed(run, replies)[n + 2] == up[2]);
        each_reply(run, replies, n + 2);
        assert(replies[n + 2] is Markers);
    }
    marked_by_up(files, steps, m, last);
    requests_concat(head, up);
    marked_concat(markers, requests_of(head), requests_of(up));
}

/// An `up` that ends well leaves a marker for each of the first `steps` migrations
/// that had none, and touches no other.
pub proof fn up_marks_what_was_unmarked(
    files: Seq<FileView>,
    steps: Option<u32>,
    markers: Multiset<Seq<char>>,
    replies: Seq<ReplyView>,
)
    requires
        ({
            let run = RunView { files, tasks: up_tasks(steps) };
            &&& accepted(run, replies)
            &&& kept(markers, run, replies)
            &&& played(run, replies) matches ProgressView::Finished(Ok(_))
        }),
    ensures
        marked(markers, asked(RunView { files, tasks: up_tasks(steps) }, replies)) == after_up(
            files,
            steps,
            markers,
        ),
{
    let run = RunView { files, tasks: up_tasks(steps) };
    let none = Seq::<TaskView>::empty();
    up_follows_its_plan(files, steps, replies);
    assert(replies.skip(0) =~= replies);
    assert(later(replies, 0) =~= replies);
    assert(none + up_plan(files, steps, replies) =~= up_plan(files, steps, replies));
    marked_by_last_up(run, none, steps, markers, replies);
    assert(requests_of(none) =~= Seq::empty());
}

/// A `down` that ends well deletes the markers of the migrations it rolled back: the
/// `steps` that were applied last. It touches no other.
pub proof fn down_unmarks_the_last(
    files: Seq<FileView>,
    steps: Option<u32>,
    markers: Multiset<Seq<char>>,
    replies: Seq<ReplyView>,
)
    requires
        ({
            let run = RunView { files, tasks: down_tasks(steps) };
            &&& accepted(run, replies)
            &&& played(run, replies) matches ProgressView::Finished(Ok(_))
        }),
    ensures
        replies.len() > 1,
        replies[1] is Markers,
        marked(markers, asked(RunView { files, tasks: down_tasks(steps) }, replies))
            == markers.filter(
            |n: Seq<char>| !to_roll_back(replies[1]->Markers_0, steps).contains(n),
        ),
{
    let run = RunView { files, tasks: down_tasks(steps) };
    let plan = down_plan(files, steps, replies);
    down_follows_its_plan(files, steps, replies);
    performed_are_requests(run, replies);
    assert(plan[1] == (TaskView::PlanDown { steps }));
    each_reply(run, replies, 1);
    assert(replies[1] is Markers);
    let names = to_roll_back(replies[1]->Markers_0, steps);
    let ts = rollback_all(files, names);
    assert forall|i: int| 0 <= i < ts.len() implies !(#[trigger] ts[i] is Fail) by {
        assert(plan[2 + i] == ts[i]);
    }
    marked_unchanged(markers, down_tasks(steps));
    requests_concat(down_tasks(steps), ts);
    marked_concat(markers, requests_of(down_tasks(steps)), requests_of(ts));
    marked_by_rollback(files, names, markers);
}

/// The markers that a `down` rolls back by are the ones it found.
pub proof fn down_sees_the_markers(
    files: Seq<FileView>,
    steps: Option<u32>,
    markers: Multiset<Seq<char>>,
    replies: Seq<ReplyView>,
)
    requires
        ({
            let run = RunView { files, tasks: down_tasks(steps) };
            &&& accepted(run, replies)
            &&& kept(markers, run, replies)
            &&& played(run, replies) matches ProgressView::Finished(Ok(_))
        }),
    ensures
        replies.len() > 1,
        replies[1] is Markers,
        record_names(replies[1]->Markers_0).to_multiset() == markers,
{
    let run = RunView { files, tasks: down_tasks(steps) };
    let plan = down_plan(files, steps, replies);
    let define = seq![TaskView::DefineMarkers];
    down_follows_its_plan(files, steps, replies);
    assert(plan[1] == (TaskView::PlanDown { steps }));
    assert(plan.take(1) =~= define);
    markers_seen(run, replies, define, markers);
    marked_unchanged(markers, define);
}

/// After a `fresh` that ends well exactly the migrations at hand are marked, each
/// once, whatever was marked before.
pub proof fn fresh_marks_exactly(
    files: Seq<FileView>,
    markers: Multiset<Seq<char>>,
    replies: Seq<ReplyView>,
)
    requires
        ({
            let run = RunView { files, tasks: seq![TaskView::PlanFresh] };
            &&& accepted(run, replies)
            &&& kept(markers, run, replies)
            &&& played(run, replies) matches ProgressView::Finished(Ok(_))
        }),
    ensures
        marked(markers, asked(RunView { files, tasks: seq![TaskView::PlanFresh] }, replies))
            == migration_names(files).to_multiset(),
{
    let run = RunView { files, tasks: seq![TaskView::PlanFresh] };
    let plan = fresh_plan(files, replies);
    fresh_follows_its_plan(files, replies);
    each_reply(run, replies, 0);
    assert(replies[0] is Tables);
    let tables = listed(replies[0]->Tables_0);
    let clear = TaskView::ClearMarkers;
    let head = seq![TaskView::PlanFresh] + drop_tasks(tables).push(clear);
    marked_by_last_up(run, head, None, markers, replies);
    assert(requests_of(head).last() is ClearMarkers) by {
        assert(head.last() == clear);
    }
    let empty = Multiset::<Seq<char>>::empty();
    unmarked_of_none(files);
    assert(empty.add(migration_names(files).to_multiset()) =~= migration_names(
        files,
    ).to_multiset());
}

/// Without markers every migration is unmarked.
proof fn unmarked_of_none(files: Seq<FileView>)
    ensures
        unmarked(files, Multiset::empty()) == migration_names(files),
{
    let empty = Multiset::<Seq<char>>::empty();
    filter_keeps_all(migration_names(files), |n: Seq<char>| !empty.contains(n));
}

pub(crate) proof fn filter_keeps_all(names: Seq<Seq<char>>, p: spec_fn(Seq<char>) -> bool)
    requires
        forall|i: int| 0 <= i < names.len() ==> p(#[trigger] names[i]),
    ensures
        names.filter(p) == names,
    decreases names.len(),
{
    reveal(Seq::filter);
    if names.len() > 0 {
        let init = names.drop_last();
        assert forall|i: int| 0 <= i < init.len() implies p(#[trigger] init[i]) by {
            assert(init[i] == names[i]);
        }
        filter_keeps_all(init, p);
        assert(init.push(names.last()) =~= names);
    } else {
        assert(names.filter(p) =~= names);
    }
}

/// The markers after the rollbacks of a `refresh`: none.
proof fn refresh_unmarks_everything(
    run: RunView,
    markers: Multiset<Seq<char>>,
    replies: Seq<ReplyView>,
)
    requires
        accepted(run, replies),
        kept(markers, run, replies),
        played(run, replies) matches ProgressView::Finished(Ok(_)),
        ({
            let down = down_all_plan(run.files, later(replies, 2));
            performed(run, replies) == seq![TaskView::DefineMarkers, TaskView::PlanRefresh] + down
                + up_plan(run.files, None, later(later(replies, 2), down.len() as int))
        }),
    ensures
        marked(
            markers,
            requests_of(
                seq![TaskView::DefineMarkers, TaskView::PlanRefresh] + down_all_plan(
                    run.files,
                    later(replies, 2),
                ),
            ),
        ) == Multiset::<Seq<char>>::empty(),
{
    let files = run.files;
    let first = seq![TaskView::DefineMarkers, TaskView::PlanRefresh];
    let define = seq![TaskView::DefineMarkers];
    let after = later(replies, 2);
    let down = down_all_plan(files, after);
    let plan = performed(run, replies);
    performed_len(run, replies);
    performed_are_requests(run, replies);
    let seen = first + define;
    assert(plan[3] == down[1]);
    assert(plan.take(3) =~= seen);
    markers_seen(run, replies, seen, markers);
    marked_unchanged(markers, seen);
    assert(after[1] == replies[3]);
    let again = replies[3]->Markers_0;
    let names = latest_first(again);
    let ts = rollback_all(files, names);
    assert(down == down_all_tasks() + ts);
    assert forall|i: int| 0 <= i < ts.len() implies !(#[trigger] ts[i] is Fail) by {
        assert(down[2 + i] == ts[i]);
        assert(plan[4 + i] == ts[i]);
    }
    let lead = first + down_all_tasks();
    assert(first + down =~= lead + ts);
    marked_unchanged(markers, lead);
    requests_concat(lead, ts);
    marked_concat(markers, requests_of(lead), requests_of(ts));
    marked_by_rollback(files, names, markers);
    let left = markers.filter(|x: Seq<char>| !names.contains(x));
    assert forall|x: Seq<char>| left.count(x) == 0 by {
        if markers.count(x) > 0 {
            assert(record_names(again).contains(x)) by {
                broadcast use vstd::seq_lib::group_to_multiset_ensures;

            }
            latest_first_has_every_name(again, x);
        }
    }
    assert(left =~= Multiset::empty());
}

/// After a `refresh` that ends well exactly the migrations at hand are marked, each
/// once, whatever was marked before.
pub proof fn refresh_marks_exactly(
    files: Seq<FileView>,
    markers: Multiset<Seq<char>>,
    replies: Seq<ReplyView>,
)
    requires
        ({
            let run = RunView {
                files,
                tasks: seq![TaskView::DefineMarkers, TaskView::PlanRefresh],
            };
            &&& accepted(run, replies)
            &&& kept(markers, run, replies)
            &&& played(run, replies) matches ProgressView::Finished(Ok(_))
        }),
    ensures
        marked(
            markers,
            asked(
                RunView { files, tasks: seq![TaskView::DefineMarkers, TaskView::PlanRefresh] },
                replies,
            ),
        ) == migration_names(files).to_multiset(),
{
    let first = seq![TaskView::DefineMarkers, TaskView::PlanRefresh];
    let define = seq![TaskView::DefineMarkers];
    let run = RunView { files, tasks: first };
    let plan = refresh_plan(files, replies);
    refresh_follows_its_plan(files, replies);
    assert(plan[1] == TaskView::PlanRefresh);
    assert(plan.take(1) =~= define);
    markers_seen(run, replies, define, markers);
    marked_unchanged(markers, define);
    let records = replies[1]->Markers_0;
    assert(records.len() == markers.len()) by {
        broadcast use vstd::seq_lib::group_to_multiset_ensures;

        assert(record_names(records).len() == records.len());
    }
    let after = later(replies, 2);
    let empty = Multiset::<Seq<char>>::empty();
    if records.len() > 0 {
        let down = down_all_plan(files, after);
        let head = first + down;
        refresh_unmarks_everything(run, markers, replies);
        assert(later(after, down.len() as int) =~= later(replies, head.len() as int));
        marked_by_last_up(run, head, None, markers, replies);
    } else {
        assert(markers =~= empty);
        marked_unchanged(markers, first);
        marked_by_last_up(run, first, None, markers, replies);
    }
    unmarked_of_none(files);
    assert(empty.add(migration_names(files).to_multiset()) =~= migration_names(
        files,
    ).to_multiset());
}

/// Filtering once more by what stands behind the first `k` of a list without
/// duplicates leaves those.
proof fn filter_past(
    names: Seq<Seq<char>>,
    p: spec_fn(Seq<char>) -> bool,
    q: spec_fn(Seq<char>) -> bool,
    k: int,
)
    requires
        names.no_duplicates(),
        0 <= k <= names.filter(p).len(),
        forall|n: Seq<char>| #[trigger]
            q(n) == (p(n) && !names.filter(p).take(k).contains(n)),
    ensures
        names.filter(q) == names.filter(p).skip(k),
    decreases names.len(),
{
    reveal(Seq::filter);
    let all = names.filter(p);
    if names.len() == 0 {
        assert(names.filter(q) =~= all.skip(k));
    } else {
        let init = names.drop_last();
        let last = names.last();
        let some = init.filter(p);
        let front = all.take(k);
        if p(last) {
            assert(all == some.push(last));
            if k <= some.len() {
                assert(front =~= some.take(k));
                filter_past(init, p, q, k);
                if front.contains(last) {
                    let i = front.index_of(last);
                    assert(some[i] == last);
                    assert(some.contains(last));
                    init.lemma_filter_contains_rev(p, last);
                    let j = init.index_of(last);
                    assert(names[j] == names[names.len() - 1]);
                }
                assert(some.skip(k).push(last) =~= all.skip(k));
            } else {
                assert(front =~= all);
                assert(all[all.len() - 1] == last);
                assert forall|i: int| 0 <= i < names.len() implies !q(#[trigger] names[i]) by {
                    if p(names[i]) {
                        names.lemma_filter_contains(p, i);
                    }
                }
                filter_keeps_none(names, q);
                assert(all.skip(k) =~= Seq::empty());
            }
        } else {
            filter_past(init, p, q, k);
        }
    }
}

proof fn filter_keeps_none(names: Seq<Seq<char>>, p: spec_fn(Seq<char>) -> bool)
    requires
        forall|i: int| 0 <= i < names.len() ==> !p(#[trigger] names[i]),
    ensures
        names.filter(p).len() == 0,
    decreases names.len(),
{
    reveal(Seq::filter);
    if names.len() > 0 {
        let init = names.drop_last();
        assert forall|i: int| 0 <= i < init.len() implies !p(#[trigger] init[i]) by {
            assert(init[i] == names[i]);
        }
        filter_keeps_none(init, p);
    }
}

/// After an `up` the migrations that it did not reach are unmarked, in the same order,
/// and no others.
pub proof fn up_leaves_the_rest(
    files: Seq<FileView>,
    steps: Option<u32>,
    markers: Multiset<Seq<char>>,
)
    ensures
        unmarked(files, after_up(files, steps, markers)) == unmarked(files, markers).skip(
            limited(unmarked(files, markers), steps).len() as int,
        ),
{
    broadcast use vstd::seq_lib::group_to_multiset_ensures;

    let names = migration_names(files);
    let p = |n: Seq<char>| !markers.contains(n);
    let rest = names.filter(p);
    let done = limited(rest, steps);
    let k = done.len() as int;
    let then = after_up(files, steps, markers);
    let q = |n: Seq<char>| !then.contains(n);
    migration_names_are_distinct(files);
    assert(done =~= rest.take(k));
    assert forall|n: Seq<char>| #[trigger] q(n) == (p(n) && !rest.take(k).contains(n)) by {
        assert(then.count(n) == markers.count(n) + done.to_multiset().count(n));
        assert(done.contains(n) <==> done.to_multiset().count(n) > 0);
    }
    filter_past(names, p, q, k);
}

/// After an `up` without a limit every migration is marked.
pub proof fn up_marks_everything(files: Seq<FileView>, markers: Multiset<Seq<char>>)
    ensures
        unmarked(files, after_up(files, None, markers)).len() == 0,
        forall|n: Seq<char>|
            migration_names(files).contains(n) ==> #[trigger] after_up(
                files,
                None,
                markers,
            ).contains(n),
{
    let then = after_up(files, None, markers);
    up_leaves_the_rest(files, None, markers);
    assert forall|n: Seq<char>| migration_names(files).contains(n) implies #[trigger] then.contains(
        n,
    ) by {
        if !then.contains(n) {
            let p = |n: Seq<char>| !then.contains(n);
            migration_names(files).lemma_filter_contains(p, migration_names(files).index_of(n));
            assert(unmarked(files, then).contains(n));
        }
    }
}

/// Two limited `up`s do to the markers what one of both their steps does.
pub proof fn ups_add_up(
    files: Seq<FileView>,
    m: u32,
    n: u32,
    markers: Multiset<Seq<char>>,
)
    requires
        m + n <= u32::MAX,
    ensures
        after_up(files, Some(n), after_up(files, Some(m), markers)) == after_up(
            files,
            Some((m + n) as u32),
            markers,
        ),
{
    let rest = unmarked(files, markers);
    let a = limited(rest, Some(m));
    let b = limited(rest.skip(a.len() as int), Some(n));
    up_leaves_the_rest(files, Some(m), markers);
    assert(limited(rest, Some((m + n) as u32)) =~= a + b);
    vstd::seq_lib::lemma_multiset_commutative(a, b);
    assert(markers.add(a.to_multiset()).add(b.to_multiset()) =~= markers.add(
        (a + b).to_multiset(),
    ));
}

/// An `up` after one that marked everything is no more than a look at the markers.
pub proof fn up_with_nothing_unmarked_asks_no_more(
    files: Seq<FileView>,
    steps: Option<u32>,
    markers: Multiset<Seq<char>>,
    replies: Seq<ReplyView>,
)
    requires
        unmarked(files, markers).len() == 0,
        accepted(RunView { files, tasks: up_tasks(steps) }, replies),
        kept(markers, RunView { files, tasks: up_tasks(steps) }, replies),
    ensures
        ({
            let run = RunView { files, tasks: up_tasks(steps) };
            &&& asked(run, replies).is_prefix_of(
                seq![RequestView::DefineMarkers, RequestView::SelectMarkers],
            )
            &&& replies.len() == 2 && replies[1] is Markers ==> played(run, replies)
                matches ProgressView::Finished(Ok(_))
        }),
{
    let run = RunView { files, tasks: up_tasks(steps) };
    let all = seq![RequestView::DefineMarkers, RequestView::SelectMarkers];
    let plan = up_plan(files, steps, replies);
    up_follows_its_plan(files, steps, replies);
    if replies.len() > 1 && replies[1] is Markers {
        assert(performed(run, replies)[0] == plan[0]);
        assert(performed(run, replies)[1] == plan[1]);
        let define = seq![TaskView::DefineMarkers];
        assert(asked(run, replies).take(1) =~= requests_of(define));
        marked_unchanged(markers, define);
        assert(asked(run, replies)[1] is SelectMarkers);
        pending_is_unmarked(files, replies[1]->Markers_0, markers);
    }
    assert(plan == up_tasks(steps));
    assert(requests_of(plan) =~= all);
    let n = replies.len() as int;
    assert(asked(run, replies) =~= all.subrange(0, n)) by {
        assert(performed(run, replies) =~= plan.subrange(0, n));
    }
    if n == 2 && replies[1] is Markers {
        each_reply(run, replies, 0);
        match played(run, replies) {
            ProgressView::Waiting(now) => {
                assert((performed(run, replies) + now.tasks).len() == 2 + now.tasks.len());
                now_waits(run, replies);
            },
            ProgressView::Finished(Err(_)) => {
                let run1 = RunView { files, tasks: seq![TaskView::PlanUp { steps }] };
                assert(Seq::<TaskView>::empty() + run.tasks.drop_first() =~= run1.tasks);
                assert(run.resumed(replies[0]) == ProgressView::Waiting(run1));
                assert(replies.drop_first()[0] == replies[1]);
                assert(played(run, replies) == played(run1, replies.drop_first()));
                let next = plan_up(files, steps, replies[1]->Markers_0);
                assert(next + run1.tasks.drop_first() =~= Seq::empty());
            },
            ProgressView::Finished(Ok(_)) => {},
        }
    }
}

/// Every migration is reported as applied if and only if none is pending.
pub proof fn all_applied_if_nothing_is_pending(files: Seq<FileView>, records: Seq<RecordView>)
    ensures
        (forall|i: int|
            0 <= i < statuses(files, records).len() ==> (#[trigger] statuses(
                files,
                records,
            )[i]).applied) <==> pending(files, records).len() == 0,
{
    let names = migration_names(files);
    let p = |n: Seq<char>| !record_names(records).contains(n);
    if pending(files, records).len() == 0 {
        assert forall|i: int| 0 <= i < statuses(files, records).len() implies (
        #[trigger] statuses(files, records)[i]).applied by {
            record_of_is_some(records, names[i]);
            if p(names[i]) {
                names.lemma_filter_contains(p, i);
            }
        }
    } else {
        let n = pending(files, records)[0];
        names.lemma_filter_pred(p, 0);
        assert(names.filter(p).contains(n));
        names.lemma_filter_contains_rev(p, n);
        let i = names.index_of(n);
        record_of_is_some(records, n);
        assert(!statuses(files, records)[i].applied);
    }
}

proof fn marked_by_no_insertion(
    markers: Multiset<Seq<char>>,
    requests: Seq<RequestView>,
    name: Seq<char>,
)
    requires
        !markers.contains(name),
        forall|i: int|
            0 <= i < requests.len() ==> !(#[trigger] requests[i] matches RequestView::InsertMarker {
                name: n,
                ..
            } && n == name),
    ensures
        !marked(markers, requests).contains(name),
    decreases requests.len(),
{
    if requests.len() > 0 {
        let init = requests.drop_last();
        assert forall|i: int| 0 <= i < init.len() implies !(
        #[trigger] init[i] matches RequestView::InsertMarker { name: n, .. } && n == name) by {
            assert(init[i] == requests[i]);
        }
        marked_by_no_insertion(markers, init, name);
        let last = requests.last();
        assert(requests[requests.len() - 1] == last);
    }
}

/// A migration in the middle of which an `up` stopped is as unmarked as it was, so
/// that the next `up` finds it pending.
pub proof fn a_failed_migration_is_applied_again(
    files: Seq<FileView>,
    steps: Option<u32>,
    markers: Multiset<Seq<char>>,
    replies: Seq<ReplyView>,
    name: Seq<char>,
)
    requires
        ({
            let run = RunView { files, tasks: up_tasks(steps) };
            &&& accepted(run, replies)
            &&& replies.len() > 0
            &&& played(run, replies) matches ProgressView::Finished(Err(_))
            &&& applies(performed(run, replies).last(), name)
        }),
        unmarked(files, markers).contains(name),
    ensures
        unmarked(
            files,
            marked(markers, asked(RunView { files, tasks: up_tasks(steps) }, replies).drop_last()),
        ).contains(name),
{
    let run = RunView { files, tasks: up_tasks(steps) };
    let requests = asked(run, replies).drop_last();
    let then = marked(markers, requests);
    let names = migration_names(files);
    performed_len(run, replies);
    a_failed_migration_stays_unmarked(files, steps, replies, name);
    assert forall|i: int| 0 <= i < requests.len() implies !(
    #[trigger] requests[i] matches RequestView::InsertMarker { name: n, .. } && n == name) by {
        assert(requests[i] == asked(run, replies)[i]);
    }
    let p = |n: Seq<char>| !markers.contains(n);
    names.lemma_filter_contains_rev(p, name);
    names.lemma_filter_pred(p, names.filter(p).index_of(name));
    marked_by_no_insertion(markers, requests, name);
    names.lemma_filter_contains(|n: Seq<char>| !then.contains(n), names.index_of(name));
}

/// A `status` that ends well reports every migration, in order, and as applied exactly
/// those that are marked.
pub proof fn status_shows_the_markers(
    files: Seq<FileView>,
    markers: Multiset<Seq<char>>,
    replies: Seq<ReplyView>,
)
    requires
        ({
            let tasks = seq![TaskView::DefineMarkers, TaskView::Report];
            let run = RunView { files, tasks };
            &&& accepted(run, replies)
            &&& kept(markers, run, replies)
            &&& played(run, replies) matches ProgressView::Finished(Ok(_))
        }),
    ensures
        ({
            let tasks = seq![TaskView::DefineMarkers, TaskView::Report];
            let names = migration_names(files);
            &&& played(RunView { files, tasks }, replies) matches ProgressView::Finished(
                Ok(ReportView::Statuses(list)),
            )
            &&& list.len() == names.len()
            &&& forall|i: int|
                0 <= i < list.len() ==> (#[trigger] list[i]).name == names[i] && list[i].applied
                    == markers.contains(names[i])
        }),
{
    broadcast use vstd::seq_lib::group_to_multiset_ensures;

    let tasks = seq![TaskView::DefineMarkers, TaskView::Report];
    let run = RunView { files, tasks };
    let names = migration_names(files);
    let define = seq![TaskView::DefineMarkers];
    status_reports_every_migration(files, replies);
    assert(performed(run, replies)[1] == TaskView::Report);
    assert(performed(run, replies).take(1) =~= define);
    markers_seen(run, replies, define, markers);
    marked_unchanged(markers, define);
    let records = replies[1]->Markers_0;
    let list = statuses(files, records);
    assert forall|i: int| 0 <= i < list.len() implies (#[trigger] list[i]).name == names[i]
        && list[i].applied == markers.contains(names[i]) by {
        record_of_is_some(records, names[i]);
        assert(record_names(records).contains(names[i]) <==> record_names(
            records,
        ).to_multiset().count(names[i]) > 0);
    }
}

/// Whether a run ended with a report in which every migration is applied.
pub open spec fn reports_all_applied(p: ProgressView) -> bool {
    &&& p matches ProgressView::Finished(Ok(ReportView::Statuses(list)))
    &&& forall|i: int| 0 <= i < list.len() ==> (#[trigger] list[i]).applied
}

proof fn all_marked_all_applied(
    files: Seq<FileView>,
    markers: Multiset<Seq<char>>,
    replies: Seq<ReplyView>,
)
    requires
        forall|n: Seq<char>| migration_names(files).contains(n) ==> #[trigger] markers.contains(n),
        ({
            let tasks = seq![TaskView::DefineMarkers, TaskView::Report];
            let run = RunView { files, tasks };
            &&& accepted(run, replies)
            &&& kept(markers, run, replies)
            &&& played(run, replies) matches ProgressView::Finished(Ok(_))
        }),
    ensures
        reports_all_applied(
            played(
                RunView { files, tasks: seq![TaskView::DefineMarkers, TaskView::Report] },
                replies,
            ),
        ),
{
    let names = migration_names(files);
    status_shows_the_markers(files, markers, replies);
    assert forall|i: int| 0 <= i < names.len() implies markers.contains(#[trigger] names[i]) by {
        assert(names.contains(names[i]));
    }
}

/// After an `up` without a limit, a `fresh` or a `refresh` that ends well, `status`
/// reports every migration as applied.
pub proof fn everything_is_applied_afterwards(
    files: Seq<FileView>,
    tasks: Seq<TaskView>,
    markers: Multiset<Seq<char>>,
    replies: Seq<ReplyView>,
    later_replies: Seq<ReplyView>,
)
    requires
        tasks == up_tasks(None) || tasks == seq![TaskView::PlanFresh] || tasks == seq![
            TaskView::DefineMarkers,
            TaskView::PlanRefresh,
        ],
        ({
            let run = RunView { files, tasks };
            let status = RunView {
                files,
                tasks: seq![TaskView::DefineMarkers, TaskView::Report],
            };
            &&& accepted(run, replies)
            &&& kept(markers, run, replies)
            &&& played(run, replies) matches ProgressView::Finished(Ok(_))
            &&& accepted(status, later_replies)
            &&& kept(marked(markers, asked(run, replies)), status, later_replies)
            &&& played(status, later_replies) matches ProgressView::Finished(Ok(_))
        }),
    ensures
        reports_all_applied(
            played(
                RunView { files, tasks: seq![TaskView::DefineMarkers, TaskView::Report] },
                later_replies,
            ),
        ),
{
    broadcast use vstd::seq_lib::group_to_multiset_ensures;

    let names = migration_names(files);
    let then = marked(markers, asked(RunView { files, tasks }, replies));
    if tasks == up_tasks(None) {
        up_marks_what_was_unmarked(files, None, markers, replies);
        up_marks_everything(files, markers);
    } else if tasks == seq![TaskView::PlanFresh] {
        fresh_marks_exactly(files, markers, replies);
    } else {
        refresh_marks_exactly(files, markers, replies);
    }
    assert forall|n: Seq<char>| names.contains(n) implies #[trigger] then.contains(n) by {
        if tasks == up_tasks(None) {
            assert(after_up(files, None, markers).contains(n));
        } else {
            assert(names.to_multiset().count(n) > 0);
        }
    }
    all_marked_all_applied(files, then, later_replies);
}

} // verus!
