//! Which tables a SurrealQL text defines, told by the words that define them.

use vstd::prelude::*;

use crate::reading::is_simple;
use crate::surql::{code_words, WordView};
use crate::tables::{
    defined_tables, defines_table, is_word, past_qualifiers, starts_with_qualifier, table_name,
    tables_in,
};
use crate::text::{ascii_upper, white_space};
use crate::text_laws::{bare_names_keep_what_is_between, is_bare_part};
use crate::wording::{
    a_semicolon_is_a_word, a_word_is_read_as_a_whole, is_one_word, plain_word,
    white_space_is_no_word, words_end_with_a_semicolon,
};

verus! {

/// Whether word `k` stands between `DEFINE TABLE` and a name: it is `OVERWRITE`, `IF`, `NOT`
/// or `EXISTS`, and no semicolon follows it.
pub open spec fn is_between(ws: Seq<WordView>, k: int) -> bool {
    &&& is_word(ws[k], "OVERWRITE"@) || is_word(ws[k], "IF"@) || is_word(ws[k], "NOT"@) || is_word(
        ws[k],
        "EXISTS"@,
    )
    &&& !(k + 1 < ws.len() && is_word(ws[k + 1], ";"@))
}

/// Whether `DEFINE TABLE` stands at `i`, and `j` is the first word behind it that does not
/// stand between it and a name.
pub open spec fn defines(ws: Seq<WordView>, i: int, j: int) -> bool {
    &&& 0 <= i && i + 2 <= j < ws.len()
    &&& is_word(ws[i], "DEFINE"@)
    &&& is_word(ws[i + 1], "TABLE"@)
    &&& forall|k: int| i + 2 <= k < j ==> #[trigger] is_between(ws, k)
    &&& !is_between(ws, j)
}

/// Whether a name is what is left of a word without the punctuation around it.
pub open spec fn is_name_in(name: Seq<char>, word: Seq<char>) -> bool {
    exists|x: int, y: int| #[trigger] is_bare_part(word, x, y) && name == word.subrange(x, y)
}

/// Whether the given names are those that the words at `at` define, in the order in which
/// they stand, and no other words from place `p` on define one.
pub open spec fn are_definitions(
    ws: Seq<WordView>,
    p: int,
    names: Seq<Seq<char>>,
    at: Seq<(int, int)>,
) -> bool {
    &&& at.len() == names.len()
    &&& forall|n: int|
        0 <= n < at.len() ==> {
            let (i, j) = #[trigger] at[n];
            p <= i && defines(ws, i, j) && names[n].len() > 0 && is_name_in(names[n], ws[j].text)
        }
    &&& forall|m: int, n: int| 0 <= m < n < at.len() ==> at[m].0 < at[n].0
    &&& forall|i: int, j: int, name: Seq<char>|
        p <= i && #[trigger] defines(ws, i, j) && name.len() > 0 && #[trigger] is_name_in(
            name,
            ws[j].text,
        ) ==> at.contains((i, j))
}

proof fn name_in_word(w: WordView, name: Seq<char>)
    ensures
        is_name_in(table_name(w), w.text),
        is_name_in(name, w.text) ==> name == table_name(w),
{
    bare_names_keep_what_is_between(w.text);
    let s = w.text;
    let (i, j) = choose|i: int, j: int| #[trigger]
        is_bare_part(s, i, j) && table_name(w) == s.subrange(i, j);
    if is_name_in(name, s) {
        let (x, y) = choose|x: int, y: int| #[trigger]
            is_bare_part(s, x, y) && name == s.subrange(x, y);
        if i < j && x < y {
            if x < i {
                assert(s[x] == s[x]);
            }
            if i < x {
                assert(s[i] == s[i]);
            }
            if y < j {
                assert(s[j - 1] == s[j - 1]);
            }
            if j < y {
                assert(s[y - 1] == s[y - 1]);
            }
        } else if i < j {
            assert(s[i] == s[i]);
        } else if x < y {
            assert(s[x] == s[x]);
        } else {
            assert(name =~= table_name(w));
        }
    }
}

proof fn keywords_differ(w: WordView)
    ensures
        is_word(w, "DEFINE"@) ==> !is_word(w, "TABLE"@) && !is_word(w, "OVERWRITE"@) && !is_word(
            w,
            "IF"@,
        ) && !is_word(w, "NOT"@) && !is_word(w, "EXISTS"@) && !is_word(w, ";"@),
        is_word(w, ";"@) ==> !is_word(w, "TABLE"@) && !is_word(w, "OVERWRITE"@) && !is_word(
            w,
            "IF"@,
        ) && !is_word(w, "NOT"@) && !is_word(w, "EXISTS"@),
{
    reveal_strlit("DEFINE");
    reveal_strlit("TABLE");
    reveal_strlit("OVERWRITE");
    reveal_strlit("IF");
    reveal_strlit("NOT");
    reveal_strlit("EXISTS");
    reveal_strlit(";");
    let f = |c: char| ascii_upper(c);
    let d = "DEFINE"@.map_values(f);
    let e = "EXISTS"@.map_values(f);
    assert(d.len() == 6 && "TABLE"@.map_values(f).len() == 5);
    assert("OVERWRITE"@.map_values(f).len() == 9 && "IF"@.map_values(f).len() == 2);
    assert("NOT"@.map_values(f).len() == 3 && ";"@.map_values(f).len() == 1);
    assert(d[0] == 'D' && e[0] == 'E' && e.len() == 6);
}

/// Where the words that stand before a name end.
proof fn past_from(ws: Seq<WordView>, q: int) -> (m: int)
    requires
        0 <= q <= ws.len(),
    ensures
        q <= m <= ws.len(),
        past_qualifiers(ws.skip(q)) == ws.skip(m),
        forall|k: int| q <= k < m ==> #[trigger] is_between(ws, k),
        m < ws.len() ==> !is_between(ws, m),
    decreases ws.len() - q,
{
    let here = ws.skip(q);
    if here.len() > 0 {
        assert(here[0] == ws[q]);
    }
    if here.len() > 1 {
        assert(here[1] == ws[q + 1]);
    }
    assert(starts_with_qualifier(here) == (q < ws.len() && is_between(ws, q)));
    if starts_with_qualifier(here) {
        assert(here.drop_first() =~= ws.skip(q + 1));
        past_from(ws, q + 1)
    } else {
        q
    }
}

proof fn definitions_from(ws: Seq<WordView>, p: int) -> (at: Seq<(int, int)>)
    requires
        0 <= p <= ws.len(),
    ensures
        are_definitions(ws, p, tables_in(ws.skip(p)), at),
    decreases ws.len() - p,
{
    let here = ws.skip(p);
    let names = tables_in(here);
    if here.len() <= 2 {
        Seq::empty()
    } else if defines_table(here) {
        let m = past_from(ws, p + 2);
        assert(here.skip(2) =~= ws.skip(p + 2));
        assert(here[0] == ws[p] && here[1] == ws[p + 1]);
        let later = definitions_from(ws, m);
        let rest = ws.skip(m);
        let more = tables_in(rest);
        assert forall|i: int, j: int| p <= i < m && #[trigger] defines(ws, i, j) implies i == p && j
            == m by {
            keywords_differ(ws[i]);
            if i > p + 1 {
                assert(is_between(ws, i));
            }
            if j < m {
                assert(is_between(ws, j));
            }
            if m < j {
                assert(is_between(ws, m));
            }
        }
        if m < ws.len() {
            assert(rest[0] == ws[m]);
            let name = table_name(ws[m]);
            name_in_word(ws[m], name);
            assert(defines(ws, p, m));
            if name.len() > 0 {
                let at = seq![(p, m)] + later;
                assert(names == seq![name] + more);
                assert forall|n: int| 0 <= n < at.len() implies {
                    let (i, j) = #[trigger] at[n];
                    p <= i && defines(ws, i, j) && names[n].len() > 0 && is_name_in(
                        names[n],
                        ws[j].text,
                    )
                } by {
                    if n > 0 {
                        assert(at[n] == later[n - 1]);
                        assert(names[n] == more[n - 1]);
                    }
                }
                assert forall|x: int, y: int| 0 <= x < y < at.len() implies at[x].0 < at[y].0 by {
                    assert(at[y] == later[y - 1]);
                    if x > 0 {
                        assert(at[x] == later[x - 1]);
                    }
                }
                assert forall|i: int, j: int, nm: Seq<char>|
                    p <= i && #[trigger] defines(ws, i, j) && nm.len() > 0
                        && #[trigger] is_name_in(nm, ws[j].text) implies at.contains((i, j)) by {
                    if i < m {
                        assert(at[0] == (i, j));
                    } else {
                        let n = later.index_of((i, j));
                        assert(at[n + 1] == (i, j));
                    }
                }
                at
            } else {
                assert(names == more);
                assert forall|i: int, j: int, nm: Seq<char>|
                    p <= i && #[trigger] defines(ws, i, j) && nm.len() > 0
                        && #[trigger] is_name_in(nm, ws[j].text) implies later.contains(
                    (i, j),
                ) by {
                    if i < m {
                        name_in_word(ws[m], nm);
                    }
                }
                later
            }
        } else {
            assert(names == more);
            later
        }
    } else {
        assert(here.skip(1) =~= ws.skip(p + 1));
        assert(here[0] == ws[p] && here[1] == ws[p + 1]);
        let later = definitions_from(ws, p + 1);
        assert forall|i: int, j: int, nm: Seq<char>|
            p <= i && #[trigger] defines(ws, i, j) && nm.len() > 0 && #[trigger] is_name_in(
                nm,
                ws[j].text,
            ) implies later.contains((i, j)) by {
            assert(i != p);
        }
        later
    }
}

/// The tables that a text defines are the names behind each `DEFINE TABLE` among its words
/// of code, in order, whatever else stands in the text; and no others.
pub proof fn the_definitions_are_listed_in_order(s: Seq<char>)
    ensures
        exists|at: Seq<(int, int)>| #[trigger]
            are_definitions(code_words(s), 0, defined_tables(s), at),
{
    let ws = code_words(s);
    let at = definitions_from(ws, 0);
    assert(ws.skip(0) =~= ws);
    assert(are_definitions(ws, 0, defined_tables(s), at));
}

/// Every definition is listed, whatever stands before it: if `DEFINE TABLE` is among the
/// words of code, the name behind it is among the tables.
pub proof fn every_definition_is_listed(s: Seq<char>, i: int, j: int, name: Seq<char>)
    requires
        defines(code_words(s), i, j),
        is_name_in(name, code_words(s)[j].text),
        name.len() > 0,
    ensures
        defined_tables(s).contains(name),
{
    let ws = code_words(s);
    let at = definitions_from(ws, 0);
    assert(ws.skip(0) =~= ws);
    let n = at.index_of((i, j));
    assert(at[n] == (i, j));
    name_in_word(ws[j], name);
    name_in_word(ws[j], defined_tables(s)[n]);
    assert(defined_tables(s)[n] == name);
}

/// A word of code that no qualifier can be is the name, right behind `DEFINE TABLE`.
pub proof fn the_name_follows_define_table(s: Seq<char>, i: int, name: Seq<char>)
    requires
        0 <= i && i + 2 < code_words(s).len(),
        is_word(code_words(s)[i], "DEFINE"@),
        is_word(code_words(s)[i + 1], "TABLE"@),
        !is_word(code_words(s)[i + 2], "OVERWRITE"@),
        !is_word(code_words(s)[i + 2], "IF"@),
        !is_word(code_words(s)[i + 2], "NOT"@),
        !is_word(code_words(s)[i + 2], "EXISTS"@),
        is_name_in(name, code_words(s)[i + 2].text),
        name.len() > 0,
    ensures
        defined_tables(s).contains(name),
{
    assert(defines(code_words(s), i, i + 2));
    every_definition_is_listed(s, i, i + 2, name);
}

proof fn past_of_two(a: Seq<WordView>, b: Seq<WordView>)
    requires
        a.len() > 0,
        is_word(a.last(), ";"@),
    ensures
        past_qualifiers(a + b) == past_qualifiers(a) + b,
        past_qualifiers(a).len() > 0,
        past_qualifiers(a).len() <= a.len(),
        past_qualifiers(a).last() == a.last(),
    decreases a.len(),
{
    let all = a + b;
    assert(all[0] == a[0]);
    if a.len() == 1 {
        keywords_differ(a[0]);
    } else {
        assert(all[1] == a[1]);
        if starts_with_qualifier(a) {
            assert(all.drop_first() =~= a.drop_first() + b);
            past_of_two(a.drop_first(), b);
        }
    }
}

proof fn tables_of_two(a: Seq<WordView>, b: Seq<WordView>)
    requires
        a.len() > 0,
        is_word(a.last(), ";"@),
    ensures
        tables_in(a + b) == tables_in(a) + tables_in(b),
    decreases a.len(),
{
    let all = a + b;
    assert(all[0] == a[0]);
    keywords_differ(a.last());
    if a.len() == 1 {
        assert(all.skip(1) =~= b);
        keywords_differ(a[0]);
        assert(tables_in(a) + tables_in(b) =~= tables_in(b));
        if all.len() <= 2 {
            assert(tables_in(b) =~= Seq::empty());
        }
    } else if a.len() == 2 {
        let tail = a.skip(1);
        assert(all[1] == a[1]);
        tables_of_two(tail, b);
        assert(all.skip(1) =~= tail + b);
        assert(tables_in(a) =~= Seq::empty());
        assert(tables_in(tail) =~= Seq::empty());
        if all.len() <= 2 {
            assert(tables_in(tail + b) =~= Seq::empty());
        }
        assert(tables_in(a) + tables_in(b) =~= tables_in(b));
        assert(tables_in(tail) + tables_in(b) =~= tables_in(b));
    } else {
        assert(all[1] == a[1]);
        if defines_table(a) {
            let tail = a.skip(2);
            assert(all.skip(2) =~= tail + b);
            past_of_two(tail, b);
            let rest = past_qualifiers(tail);
            tables_of_two(rest, b);
            assert((rest + b)[0] == rest[0]);
            assert(tables_in(a + b) =~= tables_in(a) + tables_in(b));
        } else {
            assert(all.skip(1) =~= a.skip(1) + b);
            tables_of_two(a.skip(1), b);
        }
    }
}

/// What stands before a semicolon takes no part in the definitions behind it: the tables
/// are those of the one and those of the other.
pub proof fn definitions_end_with_a_semicolon(s: Seq<char>, more: Seq<char>)
    requires
        is_simple(s),
        !s.contains('`'),
    ensures
        defined_tables(s + seq![';'] + more) == defined_tables(s + seq![';']) + defined_tables(
            more,
        ),
{
    words_end_with_a_semicolon(s, more);
    literals();
    tables_of_two(code_words(s + seq![';']), code_words(more));
}

proof fn literals()
    ensures
        "DEFINE"@ == seq!['D', 'E', 'F', 'I', 'N', 'E'],
        "TABLE"@ == seq!['T', 'A', 'B', 'L', 'E'],
        "OVERWRITE"@ == seq!['O', 'V', 'E', 'R', 'W', 'R', 'I', 'T', 'E'],
        "IF"@ == seq!['I', 'F'],
        "NOT"@ == seq!['N', 'O', 'T'],
        "EXISTS"@ == seq!['E', 'X', 'I', 'S', 'T', 'S'],
        ";"@ == seq![';'],
{
    reveal_strlit("DEFINE");
    reveal_strlit("TABLE");
    reveal_strlit("OVERWRITE");
    reveal_strlit("IF");
    reveal_strlit("NOT");
    reveal_strlit("EXISTS");
    reveal_strlit(";");
    assert("DEFINE"@ =~= seq!['D', 'E', 'F', 'I', 'N', 'E']);
    assert("TABLE"@ =~= seq!['T', 'A', 'B', 'L', 'E']);
    assert("OVERWRITE"@ =~= seq!['O', 'V', 'E', 'R', 'W', 'R', 'I', 'T', 'E']);
    assert("IF"@ =~= seq!['I', 'F']);
    assert("NOT"@ =~= seq!['N', 'O', 'T']);
    assert("EXISTS"@ =~= seq!['E', 'X', 'I', 'S', 'T', 'S']);
    assert(";"@ =~= seq![';']);
}

/// A word and the space behind it.
proof fn word_and_space(w: Seq<char>, more: Seq<char>)
    requires
        is_one_word(w),
    ensures
        code_words(w + (seq![' '] + more)) == seq![plain_word(w)] + code_words(more),
{
    a_word_is_read_as_a_whole(w, seq![' '] + more);
    white_space_is_no_word(' ', more);
}

/// Whether a text is a name: ASCII letters, ASCII digits and `_`.
pub open spec fn is_table_name(name: Seq<char>) -> bool {
    &&& name.len() > 0
    &&& forall|i: int|
        0 <= i < name.len() ==> 'a' <= #[trigger] name[i] <= 'z' || 'A' <= name[i] <= 'Z' || '0'
            <= name[i] <= '9' || name[i] == '_'
}

proof fn name_is_word(name: Seq<char>, more: Seq<char>)
    requires
        is_table_name(name),
    ensures
        is_one_word(name),
        table_name(plain_word(name)) == name,
        code_words(name + (seq![';'] + more)) == seq![plain_word(name), plain_word(seq![';'])]
            + code_words(more),
{
    assert forall|i: int| 0 <= i < name.len() implies #[trigger] name[i] != '"' && name[i] != '\''
        && name[i] != '-' && name[i] != '/' by {}
    assert forall|i: int| 0 <= i < name.len() implies !white_space(#[trigger] name[i]) && name[i]
        != ';' && name[i] != '`' by {}
    a_word_is_read_as_a_whole(name, seq![';'] + more);
    a_semicolon_is_a_word(more);
    assert(seq![plain_word(name)] + (seq![plain_word(seq![';'])] + code_words(more)) =~= seq![
        plain_word(name),
        plain_word(seq![';']),
    ] + code_words(more));
    assert('a' <= name[0] <= 'z' || 'A' <= name[0] <= 'Z' || '0' <= name[0] <= '9' || name[0]
        == '_');
    let z = name[name.len() - 1];
    assert('a' <= z <= 'z' || 'A' <= z <= 'Z' || '0' <= z <= '9' || z == '_');
}

/// The words of a definition of a table, up to the semicolon.
spec fn definition_words(between: Seq<WordView>, name: Seq<char>) -> Seq<WordView> {
    seq![plain_word("DEFINE"@), plain_word("TABLE"@)] + between + seq![
        plain_word(name),
        plain_word(seq![';']),
    ]
}

proof fn tables_of_definition(between: Seq<WordView>, name: Seq<char>, more: Seq<char>)
    requires
        is_table_name(name),
        between == Seq::<WordView>::empty() || between == seq![plain_word("OVERWRITE"@)] || between
            == seq![plain_word("IF"@), plain_word("NOT"@), plain_word("EXISTS"@)],
    ensures
        tables_in(definition_words(between, name) + code_words(more)) == seq![name]
            + defined_tables(more),
{
    literals();
    let ws = definition_words(between, name);
    let last = seq![plain_word(name), plain_word(seq![';'])];
    let n = between.len() as int;
    tables_of_two(ws, code_words(more));
    name_is_word(name, Seq::empty());
    assert(ws.skip(2) =~= between + last);
    assert(past_qualifiers(last) == last);
    if n == 1 {
        let x = between + last;
        assert(x[0] == between[0] && x[1] == last[0]);
        keyword_is_no_semicolon(name);
        assert(starts_with_qualifier(x));
        assert(x.drop_first() =~= last);
        assert(past_qualifiers(x) == past_qualifiers(last));
    } else if n == 3 {
        let x = between + last;
        let y = seq![between[1], between[2]] + last;
        let z = seq![between[2]] + last;
        keyword_is_no_semicolon(name);
        keyword_is_no_semicolon("NOT"@);
        keyword_is_no_semicolon("EXISTS"@);
        assert(x.drop_first() =~= y);
        assert(y.drop_first() =~= z);
        assert(z.drop_first() =~= last);
        assert(x[1] == between[1] && y[0] == between[1] && y[1] == between[2]);
        assert(z[0] == between[2] && z[1] == last[0]);
        assert(starts_with_qualifier(x) && starts_with_qualifier(y) && starts_with_qualifier(z));
        assert(past_qualifiers(z) == past_qualifiers(last));
        assert(past_qualifiers(y) == past_qualifiers(z));
        assert(past_qualifiers(x) == past_qualifiers(y));
    } else {
        assert(between + last =~= last);
    }
    assert(past_qualifiers(ws.skip(2)) == last);
    assert(ws[0] == plain_word("DEFINE"@) && ws[1] == plain_word("TABLE"@));
    assert(defines_table(ws));
    assert(tables_in(last) =~= Seq::empty());
    assert(tables_in(ws) =~= seq![name]);
}

proof fn keyword_is_no_semicolon(w: Seq<char>)
    requires
        w.len() > 1 || is_table_name(w),
    ensures
        !is_word(plain_word(w), ";"@),
{
    literals();
    let f = |c: char| ascii_upper(c);
    assert(";"@.map_values(f).len() == 1);
    assert(";"@.map_values(f)[0] == ';');
    assert(w.map_values(f).len() == w.len());
    if w.len() == 1 {
        assert(w.map_values(f)[0] == ascii_upper(w[0]));
        assert('a' <= w[0] <= 'z' || 'A' <= w[0] <= 'Z' || '0' <= w[0] <= '9' || w[0] == '_');
    }
}

proof fn keyword_words()
    ensures
        is_one_word("DEFINE"@),
        is_one_word("TABLE"@),
        is_one_word("OVERWRITE"@),
        is_one_word("IF"@),
        is_one_word("NOT"@),
        is_one_word("EXISTS"@),
{
    reveal_strlit("DEFINE");
    reveal_strlit("TABLE");
    reveal_strlit("OVERWRITE");
    reveal_strlit("IF");
    reveal_strlit("NOT");
    reveal_strlit("EXISTS");
}

/// `DEFINE TABLE <name>;`, `DEFINE TABLE OVERWRITE <name>;` and `DEFINE TABLE IF NOT EXISTS
/// <name>;` define the table `<name>`, whatever follows.
pub proof fn each_form_defines_its_table(name: Seq<char>, more: Seq<char>)
    requires
        is_table_name(name),
    ensures
        ({
            let sp = seq![' '];
            let end = name + (seq![';'] + more);
            let front = "DEFINE"@ + (sp + ("TABLE"@ + sp));
            let tables = seq![name] + defined_tables(more);
            &&& defined_tables(front + end) == tables
            &&& defined_tables(front + ("OVERWRITE"@ + (sp + end))) == tables
            &&& defined_tables(
                front + ("IF"@ + (sp + ("NOT"@ + (sp + ("EXISTS"@ + (sp + end)))))),
            ) == tables
        }),
{
    let sp = seq![' '];
    let end = name + (seq![';'] + more);
    let front = "DEFINE"@ + (sp + ("TABLE"@ + sp));
    name_is_word(name, more);
    keyword_words();
    let none = Seq::<WordView>::empty();
    let over = seq![plain_word("OVERWRITE"@)];
    let unless = seq![plain_word("IF"@), plain_word("NOT"@), plain_word("EXISTS"@)];
    let last = seq![plain_word(name), plain_word(seq![';'])] + code_words(more);
    defined_behind(none, name, end, more);
    let b = "OVERWRITE"@ + (sp + end);
    word_and_space("OVERWRITE"@, end);
    defined_behind(over, name, b, more);
    let c1 = "EXISTS"@ + (sp + end);
    let c2 = "NOT"@ + (sp + c1);
    let c3 = "IF"@ + (sp + c2);
    word_and_space("EXISTS"@, end);
    word_and_space("NOT"@, c1);
    word_and_space("IF"@, c2);
    assert(code_words(c3) =~= unless + last);
    defined_behind(unless, name, c3, more);
}

proof fn defined_behind(between: Seq<WordView>, name: Seq<char>, back: Seq<char>, more: Seq<char>)
    requires
        is_table_name(name),
        between == Seq::<WordView>::empty() || between == seq![plain_word("OVERWRITE"@)] || between
            == seq![plain_word("IF"@), plain_word("NOT"@), plain_word("EXISTS"@)],
        code_words(back) =~= between + (seq![plain_word(name), plain_word(seq![';'])] + code_words(
            more,
        )),
    ensures
        defined_tables("DEFINE"@ + (seq![' '] + ("TABLE"@ + seq![' '])) + back) == seq![name]
            + defined_tables(more),
{
    let sp = seq![' '];
    let all = "DEFINE"@ + (sp + ("TABLE"@ + sp)) + back;
    keyword_words();
    assert(all =~= "DEFINE"@ + (sp + ("TABLE"@ + (sp + back))));
    word_and_space("DEFINE"@, "TABLE"@ + (sp + back));
    word_and_space("TABLE"@, back);
    assert(code_words(all) =~= definition_words(between, name) + code_words(more));
    tables_of_definition(between, name, more);
}

} // verus!
