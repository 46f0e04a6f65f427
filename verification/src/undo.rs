//! A rollback takes back what an `up` did.

use vstd::multiset::Multiset;
use vstd::prelude::*;

use crate::batches::{batch_rows, down_removes_only_its_rows, rows, rows_kept, up_adds_one_batch};
use crate::conversation::{accepted, asked, played};
use crate::files::{migration_names, migration_names_are_exact, FileView};
use crate::history::{
    applied_before, applied_before_is_irreflexive, applied_before_is_total,
    applied_before_is_transitive, by_batch_then_name, in_order, limited,
    ordering_keeps_the_records, pending, record_names, to_roll_back, top_batch, RecordView,
};
use crate::laws::top_batch_is_highest;
use crate::migrator::{ProgressView, RunView};
use crate::plan::{down_tasks, up_tasks};
use crate::protocol::ReplyView;
use crate::text::{before, before_is_irreflexive, before_is_transitive, increasing};

verus! {

broadcast use vstd::multiset::group_multiset_axioms;

/// Ordered records are determined by how often each occurs.
proof fn order_is_unique(a: Seq<RecordView>, b: Seq<RecordView>)
    requires
        in_order(a),
        in_order(b),
        a.to_multiset() == b.to_multiset(),
    ensures
        a == b,
    decreases a.len(),
{
    broadcast use vstd::seq_lib::group_to_multiset_ensures;

    assert(a.to_multiset().len() == a.len() && b.to_multiset().len() == b.len());
    if a.len() > 0 {
        let x = a.last();
        let y = b.last();
        assert(a[a.len() - 1] == x && b[b.len() - 1] == y);
        assert(b.contains(x) && a.contains(y)) by {
            assert(a.contains(x) && b.contains(y));
            assert(a.to_multiset().count(x) > 0 && b.to_multiset().count(y) > 0);
        }
        let i = b.index_of(x);
        let j = a.index_of(y);
        applied_before_is_total(x, y);
        assert(x == y) by {
            if i < b.len() - 1 {
                assert(!applied_before(b[b.len() - 1], b[i]));
            }
            if j < a.len() - 1 {
                assert(!applied_before(a[a.len() - 1], a[j]));
            }
        }
        let c = a.drop_last();
        let d = b.drop_last();
        assert(a =~= c.push(x) && b =~= d.push(x));
        assert(c.to_multiset() =~= a.to_multiset().remove(x));
        assert(d.to_multiset() =~= b.to_multiset().remove(x));
        assert forall|k: int, m: int| 0 <= k < m < c.len() implies !applied_before(
            #[trigger] c[m],
            #[trigger] c[k],
        ) by {
            assert(c[m] == a[m] && c[k] == a[k]);
        }
        assert forall|k: int, m: int| 0 <= k < m < d.len() implies !applied_before(
            #[trigger] d[m],
            #[trigger] d[k],
        ) by {
            assert(d[m] == b[m] && d[k] == b[k]);
        }
        order_is_unique(c, d);
    } else {
        assert(b.len() == 0);
        assert(a =~= b);
    }
}

/// Whether each of `others` was applied before each of `some`.
spec fn precede(others: Multiset<RecordView>, some: Seq<RecordView>) -> bool {
    forall|m: RecordView, n: RecordView| #[trigger]
        others.contains(m) && #[trigger] some.contains(n) ==> applied_before(m, n)
}

/// Ordered records with others behind them that were applied later are ordered.
proof fn order_of_two(a: Seq<RecordView>, b: Seq<RecordView>)
    requires
        in_order(a),
        in_order(b),
        precede(a.to_multiset(), b),
    ensures
        in_order(a + b),
{
    broadcast use vstd::seq_lib::group_to_multiset_ensures;

    let all = a + b;
    assert forall|i: int, j: int| 0 <= i < j < all.len() implies !applied_before(
        #[trigger] all[j],
        #[trigger] all[i],
    ) by {
        if j < a.len() {
            assert(all[i] == a[i] && all[j] == a[j]);
        } else if i >= a.len() {
            assert(all[i] == b[i - a.len()] && all[j] == b[j - a.len()]);
        } else {
            let x = a[i];
            let y = b[j - a.len()];
            assert(a.contains(x) && b.contains(y));
            assert(a.to_multiset().count(x) > 0);
            assert(a.to_multiset().contains(x));
            assert(applied_before(x, y));
            if applied_before(y, x) {
                applied_before_is_transitive(x, y, x);
                applied_before_is_irreflexive(x);
            }
        }
    }
}

/// In the order of application, what was applied after all others comes last.
proof fn last_come_last(records: Seq<RecordView>, others: Seq<RecordView>, some: Seq<RecordView>)
    requires
        records.to_multiset() == others.to_multiset().add(some.to_multiset()),
        in_order(some),
        precede(others.to_multiset(), some),
    ensures
        by_batch_then_name(records) == by_batch_then_name(others) + some,
{
    let a = by_batch_then_name(others);
    ordering_keeps_the_records(others);
    ordering_keeps_the_records(records);
    order_of_two(a, some);
    vstd::seq_lib::lemma_multiset_commutative(a, some);
    order_is_unique(by_batch_then_name(records), a + some);
}

proof fn pending_is_increasing(
    files: Seq<FileView>,
    steps: Option<u32>,
    records: Seq<RecordView>,
)
    ensures
        increasing(limited(pending(files, records), steps)),
{
    migration_names_are_exact(files);
    filter_is_increasing(
        migration_names(files),
        |n: Seq<char>| !record_names(records).contains(n),
    );
}

proof fn filter_is_increasing(names: Seq<Seq<char>>, p: spec_fn(Seq<char>) -> bool)
    requires
        increasing(names),
    ensures
        increasing(names.filter(p)),
    decreases names.len(),
{
    reveal(Seq::filter);
    if names.len() > 0 {
        let init = names.drop_last();
        let some = init.filter(p);
        filter_is_increasing(init, p);
        assert forall|i: int, j: int|
            0 <= i < j < names.filter(p).len() implies before(
            names.filter(p)[i],
            names.filter(p)[j],
        ) by {
            if j < some.len() {
                assert(before(some[i], some[j]));
            } else {
                assert(some.contains(some[i]));
                init.lemma_filter_contains_rev(p, some[i]);
                let k = init.index_of(some[i]);
                assert(before(names[k], names[names.len() - 1]));
            }
        }
    }
}

/// What an `up` applied last is rolled back first: a rollback of as many steps takes the
/// migrations of that `up`, and no others, in reverse order. `found` is what the `up` saw
/// of the markers, and `records` what the rollback sees.
pub proof fn the_last_up_is_rolled_back_first(
    files: Seq<FileView>,
    steps: Option<u32>,
    found: Seq<RecordView>,
    records: Seq<RecordView>,
)
    requires
        top_batch(found) < u32::MAX,
        records.to_multiset() == found.to_multiset().add(
            batch_rows(limited(pending(files, found), steps), (top_batch(found) + 1) as u32),
        ),
        limited(pending(files, found), steps).len() <= u32::MAX,
    ensures
        ({
            let names = limited(pending(files, found), steps);
            to_roll_back(records, Some(names.len() as u32)) == names.reverse()
        }),
{
    broadcast use vstd::seq_lib::group_to_multiset_ensures;

    let names = limited(pending(files, found), steps);
    let batch = (top_batch(found) + 1) as u32;
    let f = |n: Seq<char>| RecordView { name: n, batch: Some(batch) };
    let some = names.map_values(f);
    pending_is_increasing(files, steps, found);
    assert forall|i: int, j: int| 0 <= i < j < some.len() implies !applied_before(
        #[trigger] some[j],
        #[trigger] some[i],
    ) by {
        assert(before(names[i], names[j]));
        if before(names[j], names[i]) {
            before_is_transitive(names[i], names[j], names[i]);
            before_is_irreflexive(names[i]);
        }
    }
    top_batch_is_highest(found);
    assert forall|m: RecordView, n: RecordView| #[trigger]
        found.to_multiset().contains(m) && #[trigger] some.contains(n) implies applied_before(
        m,
        n,
    ) by {
        assert(found.to_multiset().count(m) > 0);
        assert(found.contains(m));
        assert(found[found.index_of(m)] == m);
        assert(some[some.index_of(n)] == n);
    }
    last_come_last(records, found, some);
    let front = by_batch_then_name(found);
    let all = record_names(by_batch_then_name(records));
    let k = names.len() as int;
    assert(to_roll_back(records, Some(names.len() as u32)) =~= names.reverse()) by {
        assert(all.len() == front.len() + k);
        assert forall|i: int| 0 <= i < k implies all.reverse()[i]
            == #[trigger] names.reverse()[i] by {
            assert(all[front.len() + (k - 1 - i)] == some[k - 1 - i].name);
        }
    }
}

/// The migrations of one `up` can be rolled back together: a `down` of as many steps as
/// the `up` has applied takes back all that the `up` did to the table of markers, whatever
/// was in it.
pub proof fn down_undoes_up(
    files: Seq<FileView>,
    steps: Option<u32>,
    before: Multiset<RecordView>,
    ups: Seq<ReplyView>,
    downs: Seq<ReplyView>,
    count: u32,
)
    requires
        ({
            let up = RunView { files, tasks: up_tasks(steps) };
            let down = RunView { files, tasks: down_tasks(Some(count)) };
            &&& accepted(up, ups)
            &&& rows_kept(before, up, ups)
            &&& played(up, ups) matches ProgressView::Finished(Ok(_))
            &&& count == limited(pending(files, ups[1]->Markers_0), steps).len()
            &&& accepted(down, downs)
            &&& rows_kept(rows(before, asked(up, ups)), down, downs)
            &&& played(down, downs) matches ProgressView::Finished(Ok(_))
        }),
    ensures
        rows(
            rows(before, asked(RunView { files, tasks: up_tasks(steps) }, ups)),
            asked(RunView { files, tasks: down_tasks(Some(count)) }, downs),
        ) == before,
{
    broadcast use vstd::seq_lib::group_to_multiset_ensures;

    let found = ups[1]->Markers_0;
    let names = limited(pending(files, found), steps);
    let between = rows(before, asked(RunView { files, tasks: up_tasks(steps) }, ups));
    up_adds_one_batch(files, steps, before, ups);
    down_removes_only_its_rows(files, Some(count), between, downs);
    let records = downs[1]->Markers_0;
    let gone = to_roll_back(records, Some(count));
    let batch = (top_batch(found) + 1) as u32;
    let f = |n: Seq<char>| RecordView { name: n, batch: Some(batch) };
    let some = names.map_values(f);
    if names.len() > 0 {
        the_last_up_is_rolled_back_first(files, steps, found, records);
    } else {
        assert(gone =~= names.reverse());
    }
    let left = between.filter(|r: RecordView| !gone.contains(r.name));
    assert forall|x: RecordView| left.count(x) == before.count(x) by {
        assert(gone.contains(x.name) <==> names.contains(x.name)) by {
            if names.contains(x.name) {
                let i = names.index_of(x.name);
                assert(gone[names.len() - 1 - i] == x.name);
            }
            if gone.contains(x.name) {
                let i = gone.index_of(x.name);
                assert(names[names.len() - 1 - i] == x.name);
            }
        }
        if names.contains(x.name) {
            not_found_before(files, steps, found, x);
            assert(!found.contains(x));
            assert(found.to_multiset().count(x) == 0);
        } else {
            if some.contains(x) {
                let i = some.index_of(x);
                assert(names[i] == x.name);
            }
            assert(some.to_multiset().count(x) == 0);
        }
    }
    assert(left =~= before);
}

/// What is pending has no row.
proof fn not_found_before(
    files: Seq<FileView>,
    steps: Option<u32>,
    found: Seq<RecordView>,
    x: RecordView,
)
    requires
        limited(pending(files, found), steps).contains(x.name),
    ensures
        !found.contains(x),
{
    let names = limited(pending(files, found), steps);
    let all = pending(files, found);
    let p = |n: Seq<char>| !record_names(found).contains(n);
    let i = names.index_of(x.name);
    assert(all[i] == x.name);
    migration_names(files).lemma_filter_pred(p, i);
    if found.contains(x) {
        assert(record_names(found)[found.index_of(x)] == x.name);
    }
}

} // verus!
