//! The tables that a migration defines.

use vstd::prelude::*;

use crate::error::{ErrorView, MigrationError};
use crate::surql::{code_words, split_code_words, Word, WordView};
use crate::text::{bare_name, is_keyword, name_char, same_ignoring_case, strip};

verus! {

broadcast use vstd::string::group_string_axioms;

/// Whether a word is the given keyword; one in quotes is none.
pub open spec fn is_word(w: WordView, keyword: Seq<char>) -> bool {
    !w.quoted && same_ignoring_case(w.text, keyword)
}

/// The words that can stand between `DEFINE TABLE` and the name of the table.
pub open spec fn is_qualifier(w: WordView) -> bool {
    ||| is_word(w, "OVERWRITE"@)
    ||| is_word(w, "IF"@)
    ||| is_word(w, "NOT"@)
    ||| is_word(w, "EXISTS"@)
}

/// Whether the words begin with a qualifier. Right before a semicolon no qualifier stands:
/// such a word is the name.
pub open spec fn starts_with_qualifier(ws: Seq<WordView>) -> bool {
    ws.len() > 0 && is_qualifier(ws[0]) && !(ws.len() > 1 && is_word(ws[1], ";"@))
}

/// `ws` from its first word on that is no qualifier.
pub open spec fn past_qualifiers(ws: Seq<WordView>) -> Seq<WordView>
    decreases ws.len(),
{
    if starts_with_qualifier(ws) {
        past_qualifiers(ws.drop_first())
    } else {
        ws
    }
}

/// The table name that a word holds, without the punctuation around it.
pub open spec fn table_name(w: WordView) -> Seq<char> {
    strip(w.text, |c: char| !name_char(c))
}

/// Whether the words begin with `DEFINE TABLE` and a third word.
pub open spec fn defines_table(ws: Seq<WordView>) -> bool {
    &&& ws.len() > 2
    &&& is_word(ws[0], "DEFINE"@)
    &&& is_word(ws[1], "TABLE"@)
}

/// The names that follow `DEFINE TABLE` and its qualifiers, in order.
pub open spec fn tables_in(ws: Seq<WordView>) -> Seq<Seq<char>>
    decreases ws.len(),
    via tables_in_decreases
{
    if ws.len() <= 2 {
        Seq::empty()
    } else if defines_table(ws) {
        let rest = past_qualifiers(ws.skip(2));
        if rest.len() > 0 && table_name(rest[0]).len() > 0 {
            seq![table_name(rest[0])] + tables_in(rest)
        } else {
            tables_in(rest)
        }
    } else {
        tables_in(ws.skip(1))
    }
}

#[via_fn]
proof fn tables_in_decreases(ws: Seq<WordView>) {
    if ws.len() > 2 {
        past_qualifiers_is_suffix(ws.skip(2));
    }
}

proof fn past_qualifiers_is_suffix(ws: Seq<WordView>)
    ensures
        past_qualifiers(ws).len() <= ws.len(),
    decreases ws.len(),
{
    if starts_with_qualifier(ws) {
        past_qualifiers_is_suffix(ws.drop_first());
    }
}

/// The tables that a SurrealQL text defines. What stands in comments and string literals
/// defines none.
pub open spec fn defined_tables(sql: Seq<char>) -> Seq<Seq<char>> {
    tables_in(code_words(sql))
}

fn is_word_of(w: &Word, keyword: &str) -> (r: bool)
    ensures
        r == is_word(w@, keyword@),
{
    !w.quoted && is_keyword(&w.chars, keyword)
}

/// Whether the words from `j` on begin with a qualifier.
fn is_qualifier_at(ws: &Vec<Word>, j: usize) -> (r: bool)
    requires
        j <= ws@.len(),
    ensures
        r == starts_with_qualifier(ws.deep_view().skip(j as int)),
{
    let len: usize = ws.len();
    if j == len {
        return false;
    }
    let w: &Word = &ws[j];
    (is_word_of(w, "OVERWRITE") || is_word_of(w, "IF") || is_word_of(w, "NOT") || is_word_of(
        w,
        "EXISTS",
    )) && !(len - j > 1 && is_word_of(&ws[j + 1], ";"))
}

/// Pulls out the names of the tables that a migration claims to define.
///
/// Recognises `DEFINE TABLE <name>`, `DEFINE TABLE OVERWRITE <name>` and
/// `DEFINE TABLE IF NOT EXISTS <name>`. Anything after the table name is ignored.
pub fn extract_defined_tables(sql: &str) -> (r: Vec<String>)
    ensures
        r.deep_view() == defined_tables(sql@),
{
    let ws: Vec<Word> = split_code_words(sql);
    let ghost all = ws.deep_view();
    let len: usize = ws.len();
    let mut out: Vec<String> = Vec::new();
    let mut i: usize = 0;
    proof {
        assert(all.skip(0) =~= all);
        assert(out.deep_view() + tables_in(all) =~= tables_in(all));
    }
    while len - i > 2
        invariant
            i <= len == ws@.len(),
            all == ws.deep_view(),
            tables_in(all) == out.deep_view() + tables_in(all.skip(i as int)),
        ensures
            i <= len == ws@.len(),
            len - i <= 2,
            tables_in(all) == out.deep_view() + tables_in(all.skip(i as int)),
        decreases len - i,
    {
        let ghost rest = all.skip(i as int);
        if is_word_of(&ws[i], "DEFINE") && is_word_of(&ws[i + 1], "TABLE") {
            let mut j: usize = i + 2;
            assert(rest.skip(2) =~= all.skip(j as int));
            while j < len && is_qualifier_at(&ws, j)
                invariant
                    i + 2 <= j <= len == ws@.len(),
                    all == ws.deep_view(),
                    rest == all.skip(i as int),
                    past_qualifiers(rest.skip(2)) == past_qualifiers(all.skip(j as int)),
                ensures
                    i + 2 <= j <= len == ws@.len(),
                    past_qualifiers(rest.skip(2)) == all.skip(j as int),
                decreases len - j,
            {
                assert(all.skip(j as int).drop_first() =~= all.skip(j + 1));
                j += 1;
            }
            let ghost before = out.deep_view();
            if j < len {
                let name: String = bare_name(&ws[j].chars);
                if !name.as_str().is_empty() {
                    out.push(name);
                    assert(out.deep_view() =~= before.push(name@));
                }
            }
            assert(out.deep_view() + tables_in(all.skip(j as int)) =~= before + tables_in(rest));
            i = j;
        } else {
            assert(rest.skip(1) =~= all.skip(i + 1));
            i += 1;
        }
    }
    assert(out.deep_view() + tables_in(all.skip(i as int)) =~= out.deep_view());
    out
}

/// The names of `expected` that are not among `existing`, in order.
pub open spec fn missing_from(
    expected: Seq<Seq<char>>,
    existing: Seq<Seq<char>>,
) -> Seq<Seq<char>> {
    expected.filter(|t: Seq<char>| !existing.contains(t))
}

/// Nothing is missing if and only if every expected table exists.
pub proof fn nothing_is_missing_if_all_exist(expected: Seq<Seq<char>>, existing: Seq<Seq<char>>)
    ensures
        missing_from(expected, existing).len() == 0 <==> forall|t: Seq<char>| #[trigger]
            expected.contains(t) ==> existing.contains(t),
{
    let p = |t: Seq<char>| !existing.contains(t);
    let missing = expected.filter(p);
    if missing.len() == 0 {
        assert forall|t: Seq<char>| #[trigger] expected.contains(t) implies existing.contains(
            t,
        ) by {
            if p(t) {
                expected.lemma_filter_contains(p, expected.index_of(t));
            }
        }
    } else {
        let t = missing[0];
        expected.lemma_filter_pred(p, 0);
        assert(missing.contains(t));
        expected.lemma_filter_contains_rev(p, t);
        assert(expected.contains(t));
    }
}

/// A table that does not exist is listed as missing each time that it is expected, and
/// one that exists never.
pub proof fn each_missing_table_is_listed(
    expected: Seq<Seq<char>>,
    t: Seq<char>,
    existing: Seq<Seq<char>>,
)
    ensures
        missing_from(expected.push(t), existing) == if existing.contains(t) {
            missing_from(expected, existing)
        } else {
            missing_from(expected, existing).push(t)
        },
        missing_from(Seq::empty(), existing).len() == 0,
{
    reveal(Seq::filter);
    assert(expected.push(t).drop_last() =~= expected);
}

/// Whether every expected table exists; an error that lists the others if not.
pub open spec fn verified(
    name: Seq<char>,
    expected: Seq<Seq<char>>,
    existing: Seq<Seq<char>>,
) -> Result<(), ErrorView> {
    let missing = missing_from(expected, existing);
    if missing.len() == 0 {
        Ok(())
    } else {
        Err(ErrorView::Verification { name, expected, missing })
    }
}

/// Whether a list holds a name.
pub fn contains_name(names: &Vec<String>, name: &String) -> (r: bool)
    ensures
        r == names.deep_view().contains(name@),
{
    let mut i: usize = 0;
    while i < names.len()
        invariant
            i <= names@.len(),
            forall|j: int| 0 <= j < i ==> names.deep_view()[j] != name@,
        decreases names@.len() - i,
    {
        if names[i] == *name {
            assert(names.deep_view()[i as int] == name@);
            return true;
        }
        i += 1;
    }
    false
}

/// Confirms that each table that a migration defines is among the tables of the
/// database: insurance against silent partial applies.
pub fn verify_applied(name: String, expected: Vec<String>, existing: &Vec<String>) -> (r: Result<
    (),
    MigrationError,
>)
    ensures
        match verified(name@, expected.deep_view(), existing.deep_view()) {
            Ok(_) => r is Ok,
            Err(e) => r is Err && r->Err_0@ == e,
        },
{
    let ghost all = expected.deep_view();
    let ghost p = |t: Seq<char>| !existing.deep_view().contains(t);
    let mut missing: Vec<String> = Vec::new();
    let mut i: usize = 0;
    proof {
        reveal(Seq::filter);
        assert(missing.deep_view() =~= all.take(0).filter(p));
    }
    while i < expected.len()
        invariant
            i <= expected@.len(),
            all == expected.deep_view(),
            p == (|t: Seq<char>| !existing.deep_view().contains(t)),
            missing.deep_view() == all.take(i as int).filter(p),
        decreases expected@.len() - i,
    {
        proof {
            reveal(Seq::filter);
            assert(all.take(i + 1).drop_last() =~= all.take(i as int));
        }
        if !contains_name(existing, &expected[i]) {
            let ghost before = missing.deep_view();
            missing.push(expected[i].clone());
            assert(missing.deep_view() =~= before.push(all[i as int]));
        }
        i += 1;
    }
    assert(all.take(i as int) =~= all);
    if missing.is_empty() {
        Ok(())
    } else {
        Err(MigrationError::Verification { name, expected, missing })
    }
}

} // verus!
