//! What holds of the records and of the migrations that they are held against.

use vstd::prelude::*;
use vstd::utf8::encode_utf8;

use crate::files::{migration_names, migration_names_are_exact, migration_of, FileView};
use crate::history::{
    applied_before, by_batch_then_name, latest_first, limited, name_width,
    ordering_keeps_the_records, pending, record_names, record_of, status_line, status_lines,
    status_of, statuses, to_roll_back, RecordView, StatusView,
};
use crate::text::{before, before_is_irreflexive, decimal, increasing};
use crate::text_laws::{is_digits, number, zero_padded_numbers_control_the_order};

verus! {

/// A limit keeps as many names as it says, the first ones; without one all are kept.
pub proof fn a_limit_keeps_the_first(names: Seq<Seq<char>>, steps: Option<u32>)
    ensures
        limited(names, steps).is_prefix_of(names),
        steps is None ==> limited(names, steps) == names,
        steps matches Some(n) ==> limited(names, steps).len() == if n < names.len() {
            n as nat
        } else {
            names.len()
        },
{
    assert(limited(names, steps) =~= names.subrange(0, limited(names, steps).len() as int));
}

/// Whether some record has the name.
pub open spec fn is_recorded(records: Seq<RecordView>, name: Seq<char>) -> bool {
    exists|k: int| 0 <= k < records.len() && (#[trigger] records[k]).name == name
}

proof fn recorded_is_listed(records: Seq<RecordView>, name: Seq<char>)
    ensures
        record_names(records).contains(name) == is_recorded(records, name),
{
    let names = record_names(records);
    if names.contains(name) {
        let k = names.index_of(name);
        assert(records[k].name == name);
    }
    if is_recorded(records, name) {
        let k = choose|k: int| 0 <= k < records.len() && (#[trigger] records[k]).name == name;
        assert(names[k] == name);
    }
}

proof fn filter_keeps_order(names: Seq<Seq<char>>, p: spec_fn(Seq<char>) -> bool)
    requires
        increasing(names),
    ensures
        increasing(names.filter(p)),
    decreases names.len(),
{
    reveal(Seq::filter);
    if names.len() > 0 {
        let init = names.drop_last();
        let last = names.last();
        assert forall|i: int, j: int| 0 <= i < j < init.len() implies before(init[i], init[j]) by {
            assert(before(names[i], names[j]));
        }
        filter_keeps_order(init, p);
        let some = init.filter(p);
        let all = names.filter(p);
        assert forall|i: int, j: int| 0 <= i < j < all.len() implies before(all[i], all[j]) by {
            if j < some.len() {
                assert(before(some[i], some[j]));
            } else {
                assert(some.contains(some[i]));
                init.lemma_filter_contains_rev(p, some[i]);
                let k = init.index_of(some[i]);
                assert(before(names[k], names[names.len() - 1]));
            }
        }
    }
}

/// Pending are the migrations that have a file and no record, and only these. They are in
/// order, each once.
pub proof fn pending_is_what_no_record_names(files: Seq<FileView>, records: Seq<RecordView>)
    ensures
        forall|name: Seq<char>| #[trigger]
            pending(files, records).contains(name) <==> !is_recorded(records, name) && exists|
                k: int,
            |
                0 <= k < files.len() && migration_of(#[trigger] files[k].path) == Some(name),
        forall|i: int, j: int|
            0 <= i < j < pending(files, records).len() ==> before(
                #[trigger] pending(files, records)[i],
                #[trigger] pending(files, records)[j],
            ),
{
    let all = migration_names(files);
    let p = |n: Seq<char>| !record_names(records).contains(n);
    let names = pending(files, records);
    migration_names_are_exact(files);
    filter_keeps_order(all, p);
    assert forall|name: Seq<char>| #[trigger]
        names.contains(name) <==> !is_recorded(records, name) && exists|k: int|
            0 <= k < files.len() && migration_of(#[trigger] files[k].path) == Some(name) by {
        recorded_is_listed(records, name);
        if names.contains(name) {
            all.lemma_filter_contains_rev(p, name);
            let k = names.index_of(name);
            all.lemma_filter_pred(p, k);
            assert(all.contains(name));
        }
        if all.contains(name) && !is_recorded(records, name) {
            all.lemma_filter_contains(p, all.index_of(name));
        }
    }
}

/// Whether `a` is older than `b`: it has no batch number and `b` has one, or it has a lower
/// one, or the same (or none, like `b`) and a name that stands before.
pub open spec fn is_older(a: RecordView, b: RecordView) -> bool {
    ||| a.batch is None && b.batch is Some
    ||| a.batch is Some && b.batch is Some && a.batch->0 < b.batch->0
    ||| a.batch == b.batch && before(a.name, b.name)
}

/// Whether records are divided into those that are taken, in this order, and the rest: no
/// taken one is older than one that comes after it or that is left.
pub open spec fn takes_the_latest(
    records: Seq<RecordView>,
    taken: Seq<RecordView>,
    rest: Seq<RecordView>,
) -> bool {
    &&& (taken + rest).to_multiset() == records.to_multiset()
    &&& forall|i: int, j: int|
        0 <= i < j < taken.len() ==> !is_older(#[trigger] taken[i], #[trigger] taken[j])
    &&& forall|i: int, j: int|
        0 <= i < taken.len() && 0 <= j < rest.len() ==> !is_older(
            #[trigger] taken[i],
            #[trigger] rest[j],
        )
}

proof fn latest_of(records: Seq<RecordView>, n: int) -> (r: (Seq<RecordView>, Seq<RecordView>))
    requires
        0 <= n <= records.len(),
    ensures
        takes_the_latest(records, r.0, r.1),
        r.0.len() == n,
        record_names(r.0) == latest_first(records).take(n),
{
    broadcast use vstd::seq_lib::group_to_multiset_ensures;

    let sorted = by_batch_then_name(records);
    ordering_keeps_the_records(records);
    let m = sorted.len() - n;
    let rest = sorted.take(m);
    let back = sorted.skip(m);
    let taken = back.reverse();
    assert(record_names(taken) =~= latest_first(records).take(n));
    back.lemma_reverse_to_multiset();
    vstd::seq_lib::lemma_multiset_commutative(taken, rest);
    vstd::seq_lib::lemma_multiset_commutative(rest, back);
    assert(sorted =~= rest + back);
    assert((taken + rest).to_multiset() =~= records.to_multiset());
    assert forall|a: RecordView, b: RecordView| is_older(a, b) == applied_before(a, b) by {}
    assert forall|i: int, j: int| 0 <= i < j < taken.len() implies !is_older(
        #[trigger] taken[i],
        #[trigger] taken[j],
    ) by {
        assert(taken[i] == sorted[sorted.len() - 1 - i]);
        assert(taken[j] == sorted[sorted.len() - 1 - j]);
        assert(is_older(taken[i], taken[j]) == applied_before(taken[i], taken[j]));
    }
    assert forall|i: int, j: int|
        0 <= i < taken.len() && 0 <= j < rest.len() implies !is_older(
        #[trigger] taken[i],
        #[trigger] rest[j],
    ) by {
        assert(taken[i] == sorted[sorted.len() - 1 - i]);
        assert(rest[j] == sorted[j]);
        assert(is_older(taken[i], rest[j]) == applied_before(taken[i], rest[j]));
    }
    (taken, rest)
}

/// A rollback takes the records that were applied last, the last one first: as many as it
/// is told, or one.
pub proof fn a_rollback_takes_the_latest(records: Seq<RecordView>, steps: Option<u32>)
    ensures
        exists|taken: Seq<RecordView>, rest: Seq<RecordView>| #[trigger]
            takes_the_latest(records, taken, rest) && to_roll_back(records, steps) == record_names(
                taken,
            ),
        to_roll_back(records, steps).len() == ({
            let n = match steps {
                Some(n) => n as nat,
                None => 1,
            };
            if n < records.len() {
                n
            } else {
                records.len()
            }
        }),
{
    let names = latest_first(records);
    let n = to_roll_back(records, steps).len() as int;
    ordering_keeps_the_records(records);
    assert(names.len() == records.len());
    assert(to_roll_back(records, steps) =~= names.take(n));
    let (taken, rest) = latest_of(records, n);
    assert(takes_the_latest(records, taken, rest));
}

/// A rollback of everything takes every record, the one applied last first.
pub proof fn a_full_rollback_takes_all(records: Seq<RecordView>)
    ensures
        exists|taken: Seq<RecordView>| #[trigger]
            takes_the_latest(records, taken, Seq::empty()) && latest_first(records)
                == record_names(taken),
{
    let names = latest_first(records);
    ordering_keeps_the_records(records);
    let n = records.len() as int;
    assert(names.take(n) =~= names);
    let (taken, rest) = latest_of(records, n);
    assert((taken + rest).len() == records.len()) by {
        broadcast use vstd::seq_lib::group_to_multiset_ensures;

        assert((taken + rest).to_multiset().len() == (taken + rest).len());
        assert(records.to_multiset().len() == records.len());
    }
    assert(rest =~= Seq::empty());
    assert(takes_the_latest(records, taken, Seq::empty()));
}

/// Whether record `k` is the last with the name.
pub open spec fn is_last_of(records: Seq<RecordView>, k: int, name: Seq<char>) -> bool {
    &&& 0 <= k < records.len()
    &&& records[k].name == name
    &&& forall|m: int| k < m < records.len() ==> (#[trigger] records[m]).name != name
}

proof fn last_of(records: Seq<RecordView>, name: Seq<char>) -> (k: int)
    ensures
        record_of(records, name) is Some ==> is_last_of(records, k, name) && record_of(
            records,
            name,
        ) == Some(records[k]),
        record_of(records, name) is None ==> !is_recorded(records, name),
    decreases records.len(),
{
    if records.len() == 0 {
        0
    } else if records.last().name == name {
        records.len() - 1
    } else {
        let init = records.drop_last();
        let k = last_of(init, name);
        if record_of(records, name) is Some {
            assert forall|m: int| k < m < records.len() implies (#[trigger] records[m]).name
                != name by {
                if m < init.len() {
                    assert(init[m] == records[m]);
                }
            }
        } else {
            assert forall|m: int| 0 <= m < records.len() implies (#[trigger] records[m]).name
                != name by {
                if m < init.len() {
                    assert(init[m] == records[m]);
                }
            }
        }
        k
    }
}

/// Whether a status tells the truth: it says applied exactly if there is a record with the
/// name, and shows the batch number of that record (of the last, if there are several).
pub open spec fn is_true_of(status: StatusView, records: Seq<RecordView>) -> bool {
    &&& status.applied == is_recorded(records, status.name)
    &&& status.applied ==> exists|k: int| #[trigger]
        is_last_of(records, k, status.name) && status.batch == records[k].batch
    &&& !status.applied ==> status.batch is None
}

/// The status lists every migration once, in order, and tells the truth of each: its batch
/// number is that of its own record.
pub proof fn every_status_is_true(files: Seq<FileView>, records: Seq<RecordView>)
    ensures
        statuses(files, records).len() == migration_names(files).len(),
        forall|i: int|
            0 <= i < statuses(files, records).len() ==> {
                let s = #[trigger] statuses(files, records)[i];
                &&& s.name == migration_names(files)[i]
                &&& is_true_of(s, records)
                &&& s.applied ==> records.contains(RecordView { name: s.name, batch: s.batch })
            },
{
    let all = statuses(files, records);
    assert forall|i: int| 0 <= i < all.len() implies {
        let s = #[trigger] all[i];
        &&& s.name == migration_names(files)[i]
        &&& is_true_of(s, records)
        &&& s.applied ==> records.contains(RecordView { name: s.name, batch: s.batch })
    } by {
        let s = all[i];
        let name = migration_names(files)[i];
        assert(s == status_of(records, name));
        let k = last_of(records, name);
        if s.applied {
            assert(records[k].name == name);
            assert(is_recorded(records, name));
            assert(is_last_of(records, k, name));
            assert(records[k] == (RecordView { name: s.name, batch: s.batch }));
        }
    }
}

/// A migration with a lower number is listed and applied before one with a higher number,
/// if the numbers are zero-padded to the same width.
pub proof fn numbers_control_the_order_of_migrations(
    files: Seq<FileView>,
    records: Seq<RecordView>,
    i: int,
    j: int,
    a: Seq<char>,
    s: Seq<char>,
    b: Seq<char>,
    t: Seq<char>,
)
    requires
        a.len() == b.len(),
        is_digits(a),
        is_digits(b),
        number(a) < number(b),
    ensures
        0 <= i < migration_names(files).len() && 0 <= j < migration_names(files).len()
            && migration_names(files)[i] == a + s && migration_names(files)[j] == b + t ==> i < j,
        0 <= i < pending(files, records).len() && 0 <= j < pending(files, records).len()
            && pending(files, records)[i] == a + s && pending(files, records)[j] == b + t ==> i < j,
{
    zero_padded_numbers_control_the_order(a, b, s, t);
    migration_names_are_exact(files);
    pending_is_what_no_record_names(files, records);
    before_is_irreflexive(a + s);
    let names = migration_names(files);
    if j < i && 0 <= j && i < names.len() {
        assert(before(names[j], names[i]));
    }
    let left = pending(files, records);
    if j < i && 0 <= j && i < left.len() {
        assert(before(left[j], left[i]));
    }
}

proof fn width_of_names(list: Seq<StatusView>)
    ensures
        name_width(list) >= 4,
        forall|i: int|
            0 <= i < list.len() ==> encode_utf8((#[trigger] list[i]).name).len() <= name_width(
                list,
            ),
        name_width(list) > 4 ==> exists|i: int|
            0 <= i < list.len() && encode_utf8((#[trigger] list[i]).name).len() == name_width(list),
    decreases list.len(),
{
    if list.len() > 0 {
        let init = list.drop_last();
        width_of_names(init);
        assert forall|i: int| 0 <= i < list.len() implies encode_utf8(
            (#[trigger] list[i]).name,
        ).len() <= name_width(list) by {
            if i < init.len() {
                assert(init[i] == list[i]);
            }
        }
        if name_width(list) > 4 {
            if name_width(list) == name_width(init) {
                let i = choose|i: int|
                    0 <= i < init.len() && encode_utf8((#[trigger] init[i]).name).len()
                        == name_width(init);
                assert(list[i] == init[i]);
            } else {
                let i = list.len() - 1;
                assert(encode_utf8(list[i].name).len() == name_width(list));
            }
        }
    }
}

/// The column of the names is as wide as the longest name, but has at least four places.
pub proof fn the_name_column_fits(list: Seq<StatusView>)
    ensures
        name_width(list) >= 4,
        forall|i: int|
            0 <= i < list.len() ==> encode_utf8((#[trigger] list[i]).name).len() <= name_width(
                list,
            ),
        name_width(list) > 4 ==> exists|i: int|
            0 <= i < list.len() && encode_utf8((#[trigger] list[i]).name).len() == name_width(list),
{
    width_of_names(list);
}

/// Whether a text stands in a line at a place, with nothing but spaces from its end up to
/// place `to`.
pub open spec fn stands_alone(line: Seq<char>, from: int, text: Seq<char>, to: int) -> bool {
    &&& 0 <= from
    &&& from + text.len() <= to <= line.len()
    &&& line.subrange(from, from + text.len()) == text
    &&& forall|i: int| from + text.len() <= i < to ==> #[trigger] line[i] == ' '
}

/// The table has a line for each migration, below a heading and a rule. Each line shows
/// the state, the batch number (a dash if there is none) and the name, each in its column.
/// A batch number with more than five digits makes its column wider.
pub proof fn each_migration_has_its_line(list: Seq<StatusView>, i: int)
    requires
        0 <= i < list.len(),
    ensures
        status_lines(list).len() == list.len() + 2,
        ({
            let line = status_lines(list)[i + 2];
            let state = if list[i].applied {
                seq!['a', 'p', 'p', 'l', 'i', 'e', 'd']
            } else {
                seq!['p', 'e', 'n', 'd', 'i', 'n', 'g']
            };
            let batch = match list[i].batch {
                Some(b) => decimal(b as nat),
                None => seq!['-'],
            };
            let at: int = if batch.len() < 5 {
                18
            } else {
                13 + batch.len() as int
            };
            &&& line[0] == ' '
            &&& stands_alone(line, 1, state, 11)
            &&& stands_alone(line, 11, batch, at)
            &&& stands_alone(line, at, list[i].name, line.len() as int)
            &&& line.len() == at + if list[i].name.len() < name_width(list) {
                name_width(list)
            } else {
                list[i].name.len()
            }
        }),
{
    reveal_strlit(" ");
    reveal_strlit("  ");
    reveal_strlit("-");
    reveal_strlit("applied");
    reveal_strlit("pending");
    let width = name_width(list);
    let line = status_lines(list)[i + 2];
    let s = list[i];
    assert(line == status_line(s, width));
    let state = if s.applied {
        "applied"@
    } else {
        "pending"@
    };
    let batch = match s.batch {
        Some(b) => decimal(b as nat),
        None => "-"@,
    };
    let at: int = if batch.len() < 5 {
        18
    } else {
        13 + batch.len() as int
    };
    assert(state =~= if s.applied {
        seq!['a', 'p', 'p', 'l', 'i', 'e', 'd']
    } else {
        seq!['p', 'e', 'n', 'd', 'i', 'n', 'g']
    });
    assert("-"@ =~= seq!['-']);
    assert(line.subrange(1, 8) =~= state);
    assert(line.subrange(11, 11int + batch.len()) =~= batch);
    assert(line.subrange(at, at + s.name.len()) =~= s.name);
}

/// The table begins with a heading, in the columns of the lines below it, and a rule.
pub proof fn the_table_has_a_heading(list: Seq<StatusView>)
    ensures
        status_lines(list).len() == list.len() + 2,
        ({
            let line = status_lines(list)[0];
            &&& line[0] == ' '
            &&& stands_alone(line, 1, seq!['S', 't', 'a', 't', 'u', 's'], 11)
            &&& stands_alone(line, 11, seq!['B', 'a', 't', 'c', 'h'], 18)
            &&& stands_alone(line, 18, seq!['N', 'a', 'm', 'e'], line.len() as int)
            &&& line.len() == 18 + name_width(list)
        }),
        status_lines(list)[1].len() == name_width(list) + 22,
        forall|i: int|
            0 <= i < status_lines(list)[1].len() ==> #[trigger] status_lines(list)[1][i]
                == '\u{2500}',
{
    reveal_strlit(" ");
    reveal_strlit("  ");
    reveal_strlit("Status");
    reveal_strlit("Batch");
    reveal_strlit("Name");
    width_of_names(list);
    let line = status_lines(list)[0];
    assert(line.subrange(1, 7) =~= seq!['S', 't', 'a', 't', 'u', 's']);
    assert(line.subrange(11, 16) =~= seq!['B', 'a', 't', 'c', 'h']);
    assert(line.subrange(18, 22) =~= seq!['N', 'a', 'm', 'e']);
}

} // verus!
