//! Whole runs: what a run does over a sequence of replies.

use vstd::prelude::*;

use crate::files::FileView;
use crate::migrator::{effect, fits, started, Effect, ProgressView, RunView};
use crate::plan::TaskView;
use crate::protocol::{ReplyView, RequestView};

verus! {

/// Where a run stands after the given replies.
pub open spec fn played(run: RunView, replies: Seq<ReplyView>) -> ProgressView
    decreases replies.len(),
{
    if replies.len() == 0 {
        ProgressView::Waiting(run)
    } else {
        match run.resumed(replies.first()) {
            ProgressView::Waiting(next) => played(next, replies.drop_first()),
            ProgressView::Finished(result) => ProgressView::Finished(result),
        }
    }
}

/// Whether the run could take each reply in its turn, and was not over before the
/// last one.
pub open spec fn accepted(run: RunView, replies: Seq<ReplyView>) -> bool
    decreases replies.len(),
{
    replies.len() > 0 ==> {
        &&& run.waits()
        &&& run.accepts(replies.first())
        &&& match run.resumed(replies.first()) {
            ProgressView::Waiting(next) => accepted(next, replies.drop_first()),
            ProgressView::Finished(_) => replies.len() == 1,
        }
    }
}

/// The tasks that the replies were given to, one for each reply.
pub open spec fn performed(run: RunView, replies: Seq<ReplyView>) -> Seq<TaskView>
    decreases replies.len(),
{
    if replies.len() == 0 {
        Seq::empty()
    } else {
        seq![run.tasks[0]] + match run.resumed(replies.first()) {
            ProgressView::Waiting(next) => performed(next, replies.drop_first()),
            ProgressView::Finished(_) => Seq::empty(),
        }
    }
}

/// The requests of the given tasks.
pub open spec fn requests_of(tasks: Seq<TaskView>) -> Seq<RequestView> {
    tasks.map_values(|t: TaskView| t.request())
}

/// The requests that the replies were given to, one for each reply.
pub open spec fn asked(run: RunView, replies: Seq<ReplyView>) -> Seq<RequestView> {
    requests_of(performed(run, replies))
}

/// Tasks that change nothing about the tasks ahead.
pub open spec fn is_plain(t: TaskView) -> bool {
    ||| t is DefineMarkers
    ||| t is Statement
    ||| t is Verify
    ||| t is Mark
    ||| t is Unmark
    ||| t is DropTable
    ||| t is ClearMarkers
}

/// One task was done for each reply.
pub proof fn performed_len(run: RunView, replies: Seq<ReplyView>)
    requires
        accepted(run, replies),
    ensures
        performed(run, replies).len() == replies.len(),
    decreases replies.len(),
{
    if replies.len() > 0 {
        match run.resumed(replies.first()) {
            ProgressView::Waiting(next) => {
                performed_len(next, replies.drop_first());
            },
            ProgressView::Finished(_) => {},
        }
    }
}

/// What the reply to a plain task leads to: nothing more, or the end of the run.
pub proof fn effect_of_plain(files: Seq<FileView>, t: TaskView, reply: ReplyView)
    requires
        is_plain(t),
    ensures
        effect(files, t, reply) == Effect::Then(Seq::empty()) || effect(
            files,
            t,
            reply,
        ) matches Effect::Stop(Err(_)),
{
}

/// A run whose first tasks are plain does them in order, as far as the replies go,
/// and then goes on with what follows them.
pub proof fn plain_tasks_in_order(
    run: RunView,
    ts: Seq<TaskView>,
    rest: Seq<TaskView>,
    replies: Seq<ReplyView>,
)
    requires
        run.tasks == ts + rest,
        forall|i: int| 0 <= i < ts.len() ==> is_plain(#[trigger] ts[i]) || ts[i] is Fail,
        accepted(run, replies),
    ensures
        replies.len() <= ts.len() ==> performed(run, replies) == ts.take(replies.len() as int),
        replies.len() <= ts.len() ==> match played(run, replies) {
            ProgressView::Waiting(now) => now == (RunView {
                files: run.files,
                tasks: ts.skip(replies.len() as int) + rest,
            }),
            ProgressView::Finished(Ok(_)) => replies.len() == ts.len() && started(
                run.files,
                rest,
            ) == played(run, replies),
            ProgressView::Finished(Err(_)) => true,
        },
        replies.len() > ts.len() ==> {
            let now = RunView { files: run.files, tasks: rest };
            let later = replies.skip(ts.len() as int);
            &&& played(run, replies.take(ts.len() as int)) == ProgressView::Waiting(now)
            &&& accepted(now, later)
            &&& performed(run, replies) == ts + performed(now, later)
            &&& played(run, replies) == played(now, later)
        },
        forall|i: int|
            0 <= i < ts.len() && i < replies.len() ==> effect(
                run.files,
                ts[i],
                #[trigger] replies[i],
            ) == Effect::Then(Seq::empty()) || (i == replies.len() - 1 && played(
                run,
                replies,
            ) matches ProgressView::Finished(Err(_))),
    decreases ts.len(),
{
    if replies.len() == 0 {
        assert(ts.take(0) =~= Seq::empty());
        assert(ts.skip(0) =~= ts);
    } else if ts.len() == 0 {
        assert(ts + rest =~= rest);
        assert(replies.take(0) =~= Seq::empty());
        assert(replies.skip(0) =~= replies);
        assert(ts + performed(run, replies) =~= performed(run, replies));
    } else {
        assert(run.tasks[0] == ts[0]);
        let t = ts[0];
        let reply = replies.first();
        effect_of_plain(run.files, t, reply);
        match run.resumed(reply) {
            ProgressView::Finished(result) => {
                assert(ts.take(1) =~= seq![t]);
                assert(performed(run, replies) =~= seq![t]);
                if effect(run.files, t, reply) == Effect::Then(Seq::<TaskView>::empty()) {
                    assert(Seq::<TaskView>::empty() + run.tasks.drop_first()
                        =~= run.tasks.drop_first());
                    if ts.len() == 1 {
                        assert(run.tasks.drop_first() =~= rest);
                    } else {
                        assert(run.tasks.drop_first()[0] == ts[1]);
                    }
                }
            },
            ProgressView::Waiting(next) => {
                let more = ts.drop_first();
                let later = replies.drop_first();
                assert(Seq::<TaskView>::empty() + run.tasks.drop_first() =~= more + rest);
                assert(next.tasks == more + rest);
                plain_tasks_in_order(next, more, rest, later);
                if replies.len() <= ts.len() {
                    assert(seq![t] + more.take(later.len() as int) =~= ts.take(
                        replies.len() as int,
                    ));
                    assert(more.skip(later.len() as int) =~= ts.skip(replies.len() as int));
                } else {
                    let n = ts.len() as int;
                    assert(replies.take(n).drop_first() =~= later.take(n - 1));
                    assert(replies.skip(n) =~= later.skip(n - 1));
                    let now = RunView { files: run.files, tasks: rest };
                    assert(seq![t] + (more + performed(now, replies.skip(n))) =~= ts + performed(
                        now,
                        replies.skip(n),
                    ));
                }
                assert forall|i: int|
                    0 <= i < ts.len() && i < replies.len() implies effect(
                    run.files,
                    ts[i],
                    #[trigger] replies[i],
                ) == Effect::Then(Seq::empty()) || (i == replies.len() - 1 && played(
                    run,
                    replies,
                ) matches ProgressView::Finished(Err(_))) by {
                    if i > 0 {
                        assert(more[i - 1] == ts[i]);
                        assert(later[i - 1] == replies[i]);
                    }
                }
            },
        }
    }
}

/// Each reply was fit for its task. A run that is not over has gone on after each of
/// them, and one that ended well was never refused anything.
pub proof fn each_reply(run: RunView, replies: Seq<ReplyView>, i: int)
    requires
        accepted(run, replies),
        0 <= i < replies.len(),
    ensures
        performed(run, replies).len() == replies.len(),
        !(performed(run, replies)[i] is Fail),
        fits(performed(run, replies)[i], replies[i]),
        i < replies.len() - 1 || played(run, replies) is Waiting ==> effect(
            run.files,
            performed(run, replies)[i],
            replies[i],
        ) is Then,
        played(run, replies) matches ProgressView::Finished(Ok(_)) ==> !(replies[i] is Failed),
    decreases i,
{
    performed_len(run, replies);
    if i > 0 {
        let next = run.resumed(replies.first())->Waiting_0;
        each_reply(next, replies.drop_first(), i - 1);
        assert(replies.drop_first()[i - 1] == replies[i]);
        assert(performed(run, replies)[i] == performed(next, replies.drop_first())[i - 1]);
    }
}

} // verus!
