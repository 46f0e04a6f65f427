//! What has been applied: the records of the `_migrations` table, and what follows
//! from them for the migrations at hand.

use vstd::prelude::*;
use vstd::utf8::encode_utf8;

use crate::files::{discover_migrations, migration_names, FileView, Files};
use crate::text::{
    before, before_is_irreflexive, before_is_total, before_is_transitive, comes_before, decimal,
    decimal_text, padded, push_padded, push_repeated, repeated,
};

verus! {

broadcast use vstd::string::group_string_axioms;

/// A row of the `_migrations` table.
#[derive(Debug, PartialEq, Eq)]
pub struct MigrationRecord {
    pub name: String,
    pub batch: Option<u32>,
}

/// The contents of a `MigrationRecord`.
pub struct RecordView {
    pub name: Seq<char>,
    pub batch: Option<u32>,
}

impl View for MigrationRecord {
    type V = RecordView;

    open spec fn view(&self) -> RecordView {
        RecordView { name: self.name@, batch: self.batch }
    }
}

impl DeepView for MigrationRecord {
    type V = RecordView;

    open spec fn deep_view(&self) -> RecordView {
        self@
    }
}

/// A migration, whether it has been applied, and in which batch.
#[derive(Debug, PartialEq, Eq)]
pub struct MigrationStatus {
    pub name: String,
    pub applied: bool,
    pub batch: Option<u32>,
}

/// The contents of a `MigrationStatus`.
pub struct StatusView {
    pub name: Seq<char>,
    pub applied: bool,
    pub batch: Option<u32>,
}

impl View for MigrationStatus {
    type V = StatusView;

    open spec fn view(&self) -> StatusView {
        StatusView { name: self.name@, applied: self.applied, batch: self.batch }
    }
}

impl DeepView for MigrationStatus {
    type V = StatusView;

    open spec fn deep_view(&self) -> StatusView {
        self@
    }
}

/// The names in the records, in their order.
pub open spec fn record_names(records: Seq<RecordView>) -> Seq<Seq<char>> {
    records.map_values(|r: RecordView| r.name)
}

/// The migrations that no record names, in order.
pub open spec fn pending(files: Seq<FileView>, records: Seq<RecordView>) -> Seq<Seq<char>> {
    migration_names(files).filter(|n: Seq<char>| !record_names(records).contains(n))
}

/// The first `steps` names, or all of them.
pub open spec fn limited(names: Seq<Seq<char>>, steps: Option<u32>) -> Seq<Seq<char>> {
    match steps {
        Some(n) => if n < names.len() {
            names.take(n as int)
        } else {
            names
        },
        None => names,
    }
}

/// The highest batch number in the records, or 0.
pub open spec fn top_batch(records: Seq<RecordView>) -> nat
    decreases records.len(),
{
    if records.len() == 0 {
        0
    } else {
        let top = top_batch(records.drop_last());
        match records.last().batch {
            Some(b) => if b > top {
                b as nat
            } else {
                top
            },
            None => top,
        }
    }
}

/// Whether `a` was applied before `b`: in an earlier batch or, in the same batch, by the
/// order of the names. What has no batch number was there before all that has one.
pub open spec fn applied_before(a: RecordView, b: RecordView) -> bool {
    match (a.batch, b.batch) {
        (None, None) => before(a.name, b.name),
        (None, Some(_)) => true,
        (Some(_), None) => false,
        (Some(x), Some(y)) => x < y || (x == y && before(a.name, b.name)),
    }
}

/// `r` put into its place among ordered records: before the first that was applied after
/// it.
pub open spec fn with_record(records: Seq<RecordView>, r: RecordView) -> Seq<RecordView>
    decreases records.len(),
{
    if records.len() == 0 || applied_before(r, records.first()) {
        seq![r] + records
    } else {
        seq![records.first()] + with_record(records.drop_first(), r)
    }
}

/// The records in the order in which they were applied: by batch, then by name.
pub open spec fn by_batch_then_name(records: Seq<RecordView>) -> Seq<RecordView>
    decreases records.len(),
{
    if records.len() == 0 {
        Seq::empty()
    } else {
        with_record(by_batch_then_name(records.drop_last()), records.last())
    }
}

/// The names in the records, the one applied last first.
pub open spec fn latest_first(records: Seq<RecordView>) -> Seq<Seq<char>> {
    record_names(by_batch_then_name(records)).reverse()
}

/// The names in the last `steps` records in the order of application (in the last record,
/// if no number is given), the last one first.
pub open spec fn to_roll_back(records: Seq<RecordView>, steps: Option<u32>) -> Seq<Seq<char>> {
    limited(
        latest_first(records),
        Some(
            match steps {
                Some(n) => n,
                None => 1u32,
            },
        ),
    )
}

/// The last record with the given name.
pub open spec fn record_of(records: Seq<RecordView>, name: Seq<char>) -> Option<RecordView>
    decreases records.len(),
{
    if records.len() == 0 {
        None
    } else if records.last().name == name {
        Some(records.last())
    } else {
        record_of(records.drop_last(), name)
    }
}

/// The state of one migration.
pub open spec fn status_of(records: Seq<RecordView>, name: Seq<char>) -> StatusView {
    match record_of(records, name) {
        Some(r) => StatusView { name, applied: true, batch: r.batch },
        None => StatusView { name, applied: false, batch: None },
    }
}

/// The states of all migrations, in order.
pub open spec fn statuses(files: Seq<FileView>, records: Seq<RecordView>) -> Seq<StatusView> {
    migration_names(files).map_values(|n: Seq<char>| status_of(records, n))
}

/// Finds the last record with the given name.
fn find_record<'a>(records: &'a Vec<MigrationRecord>, name: &String) -> (r: Option<
    &'a MigrationRecord,
>)
    ensures
        match record_of(records.deep_view(), name@) {
            Some(x) => r is Some && r->0@ == x,
            None => r is None,
        },
{
    let ghost all = records.deep_view();
    let mut i: usize = records.len();
    assert(all.take(i as int) =~= all);
    while i > 0
        invariant
            i <= records@.len(),
            all == records.deep_view(),
            record_of(all, name@) == record_of(all.take(i as int), name@),
        decreases i,
    {
        assert(all.take(i as int).drop_last() =~= all.take(i - 1));
        i -= 1;
        if records[i].name == *name {
            return Some(&records[i]);
        }
    }
    None
}

/// A record is found if and only if some record has the name.
pub proof fn record_of_is_some(records: Seq<RecordView>, name: Seq<char>)
    ensures
        record_of(records, name) is Some <==> record_names(records).contains(name),
        record_of(records, name) matches Some(r) ==> r.name == name && records.contains(r),
    decreases records.len(),
{
    if records.len() > 0 {
        let init = records.drop_last();
        record_of_is_some(init, name);
        if records.last().name == name {
            assert(record_names(records)[records.len() - 1] == name);
            assert(records.contains(records.last()));
        } else {
            if record_names(init).contains(name) {
                let k = record_names(init).index_of(name);
                assert(record_names(records)[k] == name);
                let m = init.index_of(record_of(init, name)->0);
                assert(records[m] == init[m]);
            }
            if record_names(records).contains(name) {
                let k = record_names(records).index_of(name);
                assert(record_names(init)[k] == name);
            }
        }
    }
}

/// Lists the migrations that are still to be applied.
pub fn pending_migrations(files: &Files, records: &Vec<MigrationRecord>) -> (r: Vec<String>)
    ensures
        r.deep_view() == pending(files@, records.deep_view()),
{
    let names: Vec<String> = discover_migrations(files);
    let mut out: Vec<String> = Vec::new();
    let mut i: usize = 0;
    let ghost all = names.deep_view();
    let ghost p = |n: Seq<char>| !record_names(records.deep_view()).contains(n);
    proof {
        reveal(Seq::filter);
        assert(out.deep_view() =~= all.take(0).filter(p));
    }
    while i < names.len()
        invariant
            i <= names@.len(),
            all == names.deep_view(),
            p == (|n: Seq<char>| !record_names(records.deep_view()).contains(n)),
            out.deep_view() == all.take(i as int).filter(p),
        decreases names@.len() - i,
    {
        proof {
            reveal(Seq::filter);
            assert(all.take(i + 1).drop_last() =~= all.take(i as int));
            record_of_is_some(records.deep_view(), all[i as int]);
        }
        if find_record(records, &names[i]).is_none() {
            let ghost before = out.deep_view();
            out.push(names[i].clone());
            assert(out.deep_view() =~= before.push(all[i as int]));
        }
        i += 1;
    }
    assert(all.take(i as int) =~= all);
    out
}

/// The number of the next batch: one more than the highest so far.
pub fn next_batch(records: &Vec<MigrationRecord>) -> (r: u32)
    requires
        top_batch(records.deep_view()) < u32::MAX,
    ensures
        r == top_batch(records.deep_view()) + 1,
{
    highest_batch(records) + 1
}

/// The highest batch number in the records, or 0.
pub fn highest_batch(records: &Vec<MigrationRecord>) -> (r: u32)
    ensures
        r == top_batch(records.deep_view()),
{
    let ghost all = records.deep_view();
    let mut top: u32 = 0;
    let mut i: usize = 0;
    while i < records.len()
        invariant
            i <= records@.len(),
            all == records.deep_view(),
            top == top_batch(all.take(i as int)),
        decreases records@.len() - i,
    {
        assert(all.take(i + 1).drop_last() =~= all.take(i as int));
        if let Some(b) = records[i].batch {
            if b > top {
                top = b;
            }
        }
        i += 1;
    }
    assert(all.take(i as int) =~= all);
    top
}

/// Keeps the first `steps` names, or all of them.
pub fn limit(names: Vec<String>, steps: Option<u32>) -> (r: Vec<String>)
    ensures
        r.deep_view() == limited(names.deep_view(), steps),
{
    let ghost all = names.deep_view();
    let mut names = names;
    if let Some(n) = steps {
        if (n as usize) < names.len() {
            names.truncate(n as usize);
            assert(names.deep_view() =~= all.take(n as int));
        }
    }
    names
}

/// Whether `a` was applied before `b`.
pub fn was_applied_before(a: &MigrationRecord, b: &MigrationRecord) -> (r: bool)
    ensures
        r == applied_before(a@, b@),
{
    match (a.batch, b.batch) {
        (None, None) => comes_before(a.name.as_str(), b.name.as_str()),
        (None, Some(_)) => true,
        (Some(_), None) => false,
        (Some(x), Some(y)) => {
            x < y || (x == y && comes_before(a.name.as_str(), b.name.as_str()))
        },
    }
}

/// Puts a record into its place.
fn insert_record(records: &mut Vec<MigrationRecord>, r: MigrationRecord)
    ensures
        final(records).deep_view() == with_record(old(records).deep_view(), r@),
{
    let ghost all = records.deep_view();
    let len: usize = records.len();
    let mut i: usize = 0;
    proof {
        assert(all.skip(0) =~= all);
        assert(all.take(0) + with_record(all, r@) =~= with_record(all, r@));
    }
    while i < len && !was_applied_before(&r, &records[i])
        invariant
            i <= len == records@.len(),
            *records == *old(records),
            all == records.deep_view(),
            with_record(all, r@) == all.take(i as int) + with_record(all.skip(i as int), r@),
        ensures
            i <= len == records@.len(),
            *records == *old(records),
            i < len ==> applied_before(r@, all[i as int]),
            with_record(all, r@) == all.take(i as int) + with_record(all.skip(i as int), r@),
        decreases len - i,
    {
        proof {
            let rest = all.skip(i as int);
            assert(rest.drop_first() =~= all.skip(i + 1));
            assert(all.take(i as int) + (seq![rest.first()] + with_record(all.skip(i + 1), r@))
                =~= all.take(i + 1) + with_record(all.skip(i + 1), r@));
        }
        i += 1;
    }
    records.insert(i, r);
    proof {
        assert(records.deep_view() =~= all.insert(i as int, r@));
        assert(all.insert(i as int, r@) =~= all.take(i as int) + (seq![r@] + all.skip(i as int)));
    }
}

/// Lists the names in the records, the one applied last first.
pub fn latest_names(records: &Vec<MigrationRecord>) -> (r: Vec<String>)
    ensures
        r.deep_view() == latest_first(records.deep_view()),
{
    let ghost given = records.deep_view();
    let mut sorted: Vec<MigrationRecord> = Vec::new();
    let mut k: usize = 0;
    assert(sorted.deep_view() =~= by_batch_then_name(given.take(0)));
    while k < records.len()
        invariant
            k <= records@.len(),
            given == records.deep_view(),
            sorted.deep_view() == by_batch_then_name(given.take(k as int)),
        decreases records@.len() - k,
    {
        assert(given.take(k + 1).drop_last() =~= given.take(k as int));
        let r = MigrationRecord { name: records[k].name.clone(), batch: records[k].batch };
        assert(r@ == given[k as int]);
        insert_record(&mut sorted, r);
        k += 1;
    }
    assert(given.take(k as int) =~= given);
    let mut names: Vec<String> = Vec::new();
    let ghost all = record_names(sorted.deep_view());
    let len: usize = sorted.len();
    let mut i: usize = len;
    assert(names.deep_view() =~= all.skip(len as int).reverse());
    while i > 0
        invariant
            i <= len == sorted@.len(),
            all == record_names(sorted.deep_view()),
            names.deep_view() == all.skip(i as int).reverse(),
        decreases i,
    {
        i -= 1;
        let ghost before = names.deep_view();
        names.push(sorted[i].name.clone());
        assert(names.deep_view() =~= before.push(all[i as int]));
        assert(names.deep_view() =~= all.skip(i as int).reverse());
    }
    assert(all.skip(0) =~= all);
    names
}

/// Lists the names that a rollback of `steps` migrations takes, the one applied last first.
pub fn rollback_names(records: &Vec<MigrationRecord>, steps: Option<u32>) -> (r: Vec<String>)
    ensures
        r.deep_view() == to_roll_back(records.deep_view(), steps),
{
    let n: u32 = match steps {
        Some(n) => n,
        None => 1,
    };
    limit(latest_names(records), Some(n))
}

/// The order of application is irreflexive.
pub proof fn applied_before_is_irreflexive(a: RecordView)
    ensures
        !applied_before(a, a),
{
    before_is_irreflexive(a.name);
}

/// The order of application is transitive.
pub proof fn applied_before_is_transitive(a: RecordView, b: RecordView, c: RecordView)
    requires
        applied_before(a, b),
        applied_before(b, c),
    ensures
        applied_before(a, c),
{
    if before(a.name, b.name) && before(b.name, c.name) {
        before_is_transitive(a.name, b.name, c.name);
    }
}

/// Of two different records one was applied before the other.
pub proof fn applied_before_is_total(a: RecordView, b: RecordView)
    ensures
        a == b || applied_before(a, b) || applied_before(b, a),
{
    before_is_total(a.name, b.name);
}

/// Whether no record was applied before one that stands before it.
pub open spec fn in_order(records: Seq<RecordView>) -> bool {
    forall|i: int, j: int|
        0 <= i < j < records.len() ==> !applied_before(
            #[trigger] records[j],
            #[trigger] records[i],
        )
}

proof fn with_record_in_order(records: Seq<RecordView>, r: RecordView)
    requires
        in_order(records),
    ensures
        in_order(with_record(records, r)),
        with_record(records, r).to_multiset() == records.to_multiset().insert(r),
        with_record(records, r).len() == records.len() + 1,
    decreases records.len(),
{
    broadcast use vstd::seq_lib::group_to_multiset_ensures;
    broadcast use vstd::multiset::group_multiset_axioms;

    let all = with_record(records, r);
    if records.len() == 0 || applied_before(r, records.first()) {
        assert forall|i: int, j: int| 0 <= i < j < all.len() implies !applied_before(
            #[trigger] all[j],
            #[trigger] all[i],
        ) by {
            assert(all[j] == records[j - 1]);
            if i > 0 {
                assert(all[i] == records[i - 1]);
            } else if applied_before(all[j], r) {
                applied_before_is_transitive(all[j], r, records[0]);
                if j == 1 {
                    applied_before_is_irreflexive(records[0]);
                }
            }
        }
        vstd::seq_lib::lemma_multiset_commutative(seq![r], records);
        assert(seq![r] =~= Seq::empty().push(r));
        assert(all.to_multiset() =~= records.to_multiset().insert(r));
    } else {
        let first = records.first();
        let tail = records.drop_first();
        let rest = with_record(tail, r);
        assert forall|i: int, j: int| 0 <= i < j < tail.len() implies !applied_before(
            #[trigger] tail[j],
            #[trigger] tail[i],
        ) by {
            assert(tail[j] == records[j + 1] && tail[i] == records[i + 1]);
        }
        with_record_in_order(tail, r);
        assert forall|i: int, j: int| 0 <= i < j < all.len() implies !applied_before(
            #[trigger] all[j],
            #[trigger] all[i],
        ) by {
            assert(all[j] == rest[j - 1]);
            if i > 0 {
                assert(all[i] == rest[i - 1]);
            } else {
                assert(rest.contains(rest[j - 1]));
                assert(rest.to_multiset().count(rest[j - 1]) > 0);
                if rest[j - 1] != r {
                    assert(tail.to_multiset().count(rest[j - 1]) > 0);
                    assert(tail.contains(rest[j - 1]));
                    let k = tail.index_of(rest[j - 1]);
                    assert(records[k + 1] == rest[j - 1]);
                    assert(!applied_before(records[k + 1], records[0]));
                }
            }
        }
        vstd::seq_lib::lemma_multiset_commutative(seq![first], rest);
        vstd::seq_lib::lemma_multiset_commutative(seq![first], tail);
        assert(records =~= seq![first] + tail);
        assert(all.to_multiset() =~= records.to_multiset().insert(r));
    }
}

/// Ordered by application, the records are the same, each as often as it was, and no
/// record stands before one that was applied earlier.
pub proof fn ordering_keeps_the_records(records: Seq<RecordView>)
    ensures
        in_order(by_batch_then_name(records)),
        by_batch_then_name(records).to_multiset() == records.to_multiset(),
        by_batch_then_name(records).len() == records.len(),
    decreases records.len(),
{
    broadcast use vstd::seq_lib::group_to_multiset_ensures;

    if records.len() > 0 {
        let init = records.drop_last();
        ordering_keeps_the_records(init);
        with_record_in_order(by_batch_then_name(init), records.last());
        assert(records =~= init.push(records.last()));
    } else {
        assert(by_batch_then_name(records) =~= records);
    }
}

/// The names, latest first, are those of the records.
pub proof fn latest_first_has_every_name(records: Seq<RecordView>, name: Seq<char>)
    ensures
        latest_first(records).contains(name) <==> record_names(records).contains(name),
{
    let sorted = by_batch_then_name(records);
    ordering_keeps_the_records(records);
    if record_names(records).contains(name) {
        let k = record_names(records).index_of(name);
        same_records(records, sorted, k);
        let m = sorted.index_of(records[k]);
        assert(record_names(sorted)[m] == name);
        assert(latest_first(records)[sorted.len() - 1 - m] == name);
    }
    if latest_first(records).contains(name) {
        let k = sorted.len() - 1 - latest_first(records).index_of(name);
        assert(record_names(sorted)[k] == name);
        same_records(sorted, records, k);
        let m = records.index_of(sorted[k]);
        assert(record_names(records)[m] == name);
    }
}

proof fn same_records(a: Seq<RecordView>, b: Seq<RecordView>, k: int)
    requires
        a.to_multiset() == b.to_multiset(),
        0 <= k < a.len(),
    ensures
        b.contains(a[k]),
{
    broadcast use vstd::seq_lib::group_to_multiset_ensures;

    assert(a.contains(a[k]));
    assert(a.to_multiset().count(a[k]) > 0);
    assert(b.to_multiset().count(a[k]) > 0);
}

/// Lists every migration with its applied state and batch.
pub fn migration_statuses(files: &Files, records: &Vec<MigrationRecord>) -> (r: Vec<
    MigrationStatus,
>)
    ensures
        r.deep_view() == statuses(files@, records.deep_view()),
{
    let names: Vec<String> = discover_migrations(files);
    let ghost all = names.deep_view();
    let ghost f = |n: Seq<char>| status_of(records.deep_view(), n);
    let mut out: Vec<MigrationStatus> = Vec::new();
    let mut i: usize = 0;
    assert(out.deep_view() =~= all.take(0).map_values(f));
    while i < names.len()
        invariant
            i <= names@.len(),
            all == names.deep_view(),
            f == (|n: Seq<char>| status_of(records.deep_view(), n)),
            out.deep_view() == all.take(i as int).map_values(f),
        decreases names@.len() - i,
    {
        let name: String = names[i].clone();
        let status = match find_record(records, &name) {
            Some(r) => MigrationStatus { name, applied: true, batch: r.batch },
            None => MigrationStatus { name, applied: false, batch: None },
        };
        let ghost before = out.deep_view();
        out.push(status);
        assert(out.deep_view() =~= before.push(f(all[i as int])));
        i += 1;
        assert(out.deep_view() =~= all.take(i as int).map_values(f));
    }
    assert(all.take(i as int) =~= all);
    out
}

/// The width of the name column: the most bytes that a name has, but at least 4.
pub open spec fn name_width(statuses: Seq<StatusView>) -> nat
    decreases statuses.len(),
{
    if statuses.len() == 0 {
        4
    } else {
        let w = name_width(statuses.drop_last());
        let n = encode_utf8(statuses.last().name).len();
        if n > w {
            n
        } else {
            w
        }
    }
}

/// A line of the status table: three columns, each padded to its width.
pub open spec fn table_line(
    state: Seq<char>,
    batch: Seq<char>,
    name: Seq<char>,
    width: nat,
) -> Seq<char> {
    " "@ + padded(state, 8) + "  "@ + padded(batch, 5) + "  "@ + padded(name, width)
}

/// The line of one migration.
pub open spec fn status_line(s: StatusView, width: nat) -> Seq<char> {
    table_line(
        if s.applied {
            "applied"@
        } else {
            "pending"@
        },
        match s.batch {
            Some(b) => decimal(b as nat),
            None => "-"@,
        },
        s.name,
        width,
    )
}

/// The status table: a heading, a rule below it, and a line for each migration.
pub open spec fn status_lines(statuses: Seq<StatusView>) -> Seq<Seq<char>> {
    let width = name_width(statuses);
    seq![table_line("Status"@, "Batch"@, "Name"@, width), repeated('\u{2500}', width + 22)]
        + statuses.map_values(|s: StatusView| status_line(s, width))
}

fn table_line_text(state: &str, batch: &str, name: &str, width: usize) -> (r: String)
    ensures
        r@ == table_line(state@, batch@, name@, width as nat),
{
    let mut r = " ".to_owned();
    push_padded(&mut r, state, 8);
    r.append("  ");
    push_padded(&mut r, batch, 5);
    r.append("  ");
    push_padded(&mut r, name, width);
    r
}

fn measure_names(statuses: &Vec<MigrationStatus>) -> (r: usize)
    ensures
        r == name_width(statuses.deep_view()),
{
    let ghost all = statuses.deep_view();
    let mut w: usize = 4;
    let mut i: usize = 0;
    while i < statuses.len()
        invariant
            i <= statuses@.len(),
            all == statuses.deep_view(),
            w == name_width(all.take(i as int)),
        decreases statuses@.len() - i,
    {
        assert(all.take(i + 1).drop_last() =~= all.take(i as int));
        let n: usize = statuses[i].name.as_str().as_bytes().len();
        if n > w {
            w = n;
        }
        i += 1;
    }
    assert(all.take(i as int) =~= all);
    w
}

/// Lays out the states of migrations as a table, line by line.
pub fn status_table(statuses: &Vec<MigrationStatus>) -> (r: Vec<String>)
    ensures
        r.deep_view() == status_lines(statuses.deep_view()),
{
    let width: usize = measure_names(statuses);
    let ghost all = statuses.deep_view();
    let ghost f = |s: StatusView| status_line(s, width as nat);
    let mut rule = String::new();
    push_repeated(&mut rule, '\u{2500}', width);
    push_repeated(&mut rule, '\u{2500}', 22);
    assert(rule@ =~= repeated('\u{2500}', width as nat + 22));
    let mut out: Vec<String> = Vec::new();
    out.push(table_line_text("Status", "Batch", "Name", width));
    out.push(rule);
    let ghost head = out.deep_view();
    assert(head =~= seq![
        table_line("Status"@, "Batch"@, "Name"@, width as nat),
        repeated('\u{2500}', width as nat + 22),
    ]);
    let mut i: usize = 0;
    assert(out.deep_view() =~= head + all.take(0).map_values(f));
    while i < statuses.len()
        invariant
            i <= statuses@.len(),
            all == statuses.deep_view(),
            f == (|s: StatusView| status_line(s, width as nat)),
            out.deep_view() == head + all.take(i as int).map_values(f),
        decreases statuses@.len() - i,
    {
        let s: &MigrationStatus = &statuses[i];
        let state: &str = if s.applied {
            "applied"
        } else {
            "pending"
        };
        let batch: String = match s.batch {
            Some(b) => decimal_text(b as u64),
            None => "-".to_owned(),
        };
        let line: String = table_line_text(state, batch.as_str(), s.name.as_str(), width);
        let ghost before = out.deep_view();
        out.push(line);
        assert(out.deep_view() =~= before.push(f(all[i as int])));
        i += 1;
        assert(out.deep_view() =~= head + all.take(i as int).map_values(f));
    }
    assert(all.take(i as int) =~= all);
    out
}

} // verus!
