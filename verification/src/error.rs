//! What can go wrong in a migration run.

use vstd::prelude::*;

use crate::text::{decimal, decimal_text};

verus! {

broadcast use vstd::string::group_string_axioms;

/// Why a migration run failed.
#[derive(Debug, PartialEq, Eq)]
pub enum MigrationError {
    /// The database refused a request; holds what it said.
    Database(String),
    /// A migration file is no UTF-8 text; holds what is wrong with it.
    Encoding(String),
    /// There is no such migration file.
    NoDownFile(String),
    /// A statement of an `up` file failed.
    Apply { name: String, stmt: usize, sql: String, cause: String },
    /// A statement of a `down` file failed.
    Rollback { name: String, stmt: usize, sql: String, cause: String },
    /// Every statement was accepted, and still some tables do not exist.
    Verification { name: String, expected: Vec<String>, missing: Vec<String> },
}

/// The contents of a `MigrationError`.
pub enum ErrorView {
    Database(Seq<char>),
    Encoding(Seq<char>),
    NoDownFile(Seq<char>),
    Apply { name: Seq<char>, stmt: nat, sql: Seq<char>, cause: Seq<char> },
    Rollback { name: Seq<char>, stmt: nat, sql: Seq<char>, cause: Seq<char> },
    Verification { name: Seq<char>, expected: Seq<Seq<char>>, missing: Seq<Seq<char>> },
}

impl View for MigrationError {
    type V = ErrorView;

    open spec fn view(&self) -> ErrorView {
        match *self {
            MigrationError::Database(cause) => ErrorView::Database(cause@),
            MigrationError::Encoding(cause) => ErrorView::Encoding(cause@),
            MigrationError::NoDownFile(name) => ErrorView::NoDownFile(name@),
            MigrationError::Apply { name, stmt, sql, cause } => ErrorView::Apply {
                name: name@,
                stmt: stmt as nat,
                sql: sql@,
                cause: cause@,
            },
            MigrationError::Rollback { name, stmt, sql, cause } => ErrorView::Rollback {
                name: name@,
                stmt: stmt as nat,
                sql: sql@,
                cause: cause@,
            },
            MigrationError::Verification { name, expected, missing } => ErrorView::Verification {
                name: name@,
                expected: expected.deep_view(),
                missing: missing.deep_view(),
            },
        }
    }
}

/// What `{:?}` writes for a string: the string in quotes, with escapes.
pub uninterp spec fn quoted(s: Seq<char>) -> Seq<char>;

/// `format!` with `{:?}`, on a string. The text is a function of the string; which
/// characters it escapes, and how, is left to `std`.
#[verifier::external_body]
fn quoted_text(s: &str) -> (r: String)
    ensures
        r@ == quoted(s@),
{
    format!("{:?}", s)
}

/// Quoted strings with commas between them.
pub open spec fn quoted_items(names: Seq<Seq<char>>) -> Seq<char>
    decreases names.len(),
{
    if names.len() == 0 {
        Seq::empty()
    } else if names.len() == 1 {
        quoted(names[0])
    } else {
        quoted_items(names.drop_last()) + ", "@ + quoted(names.last())
    }
}

/// A list of quoted strings in square brackets.
pub open spec fn quoted_list(names: Seq<Seq<char>>) -> Seq<char> {
    "["@ + quoted_items(names) + "]"@
}

fn quoted_list_text(names: &Vec<String>) -> (r: String)
    ensures
        r@ == quoted_list(names.deep_view()),
{
    let mut r = "[".to_owned();
    let ghost all = names.deep_view();
    let mut i: usize = 0;
    assert(r@ =~= "["@ + quoted_items(all.take(0)));
    while i < names.len()
        invariant
            i <= names@.len(),
            all == names.deep_view(),
            r@ == "["@ + quoted_items(all.take(i as int)),
        decreases names@.len() - i,
    {
        assert(all.take(i + 1).drop_last() =~= all.take(i as int));
        if i > 0 {
            r.append(", ");
        }
        r.append(quoted_text(names[i].as_str()).as_str());
        i += 1;
        assert(r@ =~= "["@ + quoted_items(all.take(i as int)));
    }
    assert(all.take(i as int) =~= all);
    r.append("]");
    r
}

/// The message for a statement that failed.
pub open spec fn statement_message(
    what: Seq<char>,
    name: Seq<char>,
    stmt: nat,
    sql: Seq<char>,
    cause: Seq<char>,
) -> Seq<char> {
    "Failed to "@ + what + " migration '"@ + name + "' at statement #"@ + decimal(stmt) + ": "@
        + cause + "\n  SQL: "@ + sql
}

impl ErrorView {
    /// What is told to the user.
    pub open spec fn message(self) -> Seq<char> {
        match self {
            ErrorView::Database(cause) => "SurrealDB error: "@ + cause,
            ErrorView::Encoding(cause) => "Migration file encoding error: "@ + cause,
            ErrorView::NoDownFile(name) => "No down migration file for '"@ + name + "'"@,
            ErrorView::Apply { name, stmt, sql, cause } => statement_message(
                "apply"@,
                name,
                stmt,
                sql,
                cause,
            ),
            ErrorView::Rollback { name, stmt, sql, cause } => statement_message(
                "rollback"@,
                name,
                stmt,
                sql,
                cause,
            ),
            ErrorView::Verification { name, expected, missing } => "Migration '"@ + name
                + "' applied but verification failed: expected tables "@ + quoted_list(expected)
                + ", missing "@ + quoted_list(missing),
        }
    }
}

fn statement_message_text(what: &str, name: &str, stmt: usize, sql: &str, cause: &str) -> (r:
    String)
    ensures
        r@ == statement_message(what@, name@, stmt as nat, sql@, cause@),
{
    let mut r = "Failed to ".to_owned();
    r.append(what);
    r.append(" migration '");
    r.append(name);
    r.append("' at statement #");
    r.append(decimal_text(stmt as u64).as_str());
    r.append(": ");
    r.append(cause);
    r.append("\n  SQL: ");
    r.append(sql);
    r
}

impl MigrationError {
    /// What is told to the user.
    pub fn message(&self) -> (r: String)
        ensures
            r@ == self@.message(),
    {
        match self {
            MigrationError::Database(cause) => {
                let mut r = "SurrealDB error: ".to_owned();
                r.append(cause.as_str());
                r
            },
            MigrationError::Encoding(cause) => {
                let mut r = "Migration file encoding error: ".to_owned();
                r.append(cause.as_str());
                r
            },
            MigrationError::NoDownFile(name) => {
                let mut r = "No down migration file for '".to_owned();
                r.append(name.as_str());
                r.append("'");
                r
            },
            MigrationError::Apply { name, stmt, sql, cause } => statement_message_text(
                "apply",
                name.as_str(),
                *stmt,
                sql.as_str(),
                cause.as_str(),
            ),
            MigrationError::Rollback { name, stmt, sql, cause } => statement_message_text(
                "rollback",
                name.as_str(),
                *stmt,
                sql.as_str(),
                cause.as_str(),
            ),
            MigrationError::Verification { name, expected, missing } => {
                let mut r = "Migration '".to_owned();
                r.append(name.as_str());
                r.append("' applied but verification failed: expected tables ");
                r.append(quoted_list_text(expected).as_str());
                r.append(", missing ");
                r.append(quoted_list_text(missing).as_str());
                r
            },
        }
    }
}

/// Whether a part stands in a text at a place.
pub open spec fn stands_at(text: Seq<char>, at: int, part: Seq<char>) -> bool {
    &&& 0 <= at
    &&& at + part.len() <= text.len()
    &&& text.subrange(at, at + part.len()) == part
}

/// Whether parts stand in a text at the given places, one behind the other, and the last one
/// at its end.
pub open spec fn ends_with_parts(text: Seq<char>, parts: Seq<Seq<char>>, at: Seq<int>) -> bool {
    &&& at.len() == parts.len() > 0
    &&& forall|i: int| 0 <= i < at.len() ==> stands_at(text, #[trigger] at[i], parts[i])
    &&& forall|i: int| 0 <= i < at.len() - 1 ==> #[trigger] at[i] + parts[i].len() <= at[i + 1]
    &&& at.last() + parts.last().len() == text.len()
}

/// What an error tells, in the order in which its message shows it.
pub open spec fn parts_of(e: ErrorView) -> Seq<Seq<char>> {
    match e {
        ErrorView::Database(cause) => seq![cause],
        ErrorView::Encoding(cause) => seq![cause],
        ErrorView::NoDownFile(name) => seq![name, seq!['\'']],
        ErrorView::Apply { name, stmt, sql, cause } => seq![name, decimal(stmt), cause, sql],
        ErrorView::Rollback { name, stmt, sql, cause } => seq![name, decimal(stmt), cause, sql],
        ErrorView::Verification { name, expected, missing } => seq![
            name,
            quoted_list(expected),
            quoted_list(missing),
        ],
    }
}

proof fn parts_of_statement_message(
    what: Seq<char>,
    name: Seq<char>,
    stmt: nat,
    sql: Seq<char>,
    cause: Seq<char>,
) -> (at: Seq<int>)
    ensures
        ends_with_parts(
            statement_message(what, name, stmt, sql, cause),
            seq![name, decimal(stmt), cause, sql],
            at,
        ),
{
    reveal_strlit("Failed to ");
    reveal_strlit(" migration '");
    reveal_strlit("' at statement #");
    reveal_strlit(": ");
    reveal_strlit("\n  SQL: ");
    let text = statement_message(what, name, stmt, sql, cause);
    let number = decimal(stmt);
    let a: int = 22int + what.len();
    let b: int = a + name.len() + 16;
    let c: int = b + number.len() + 2;
    let d: int = c + cause.len() + 8;
    assert(text.subrange(a, a + name.len()) =~= name);
    assert(text.subrange(b, b + number.len()) =~= number);
    assert(text.subrange(c, c + cause.len()) =~= cause);
    assert(text.subrange(d, d + sql.len()) =~= sql);
    seq![a, b, c, d]
}

/// The message of an error shows all that the error tells, in order.
pub proof fn a_message_shows_all_parts(e: ErrorView)
    ensures
        exists|at: Seq<int>| #[trigger] ends_with_parts(e.message(), parts_of(e), at),
{
    let text = e.message();
    match e {
        ErrorView::Database(cause) => {
            reveal_strlit("SurrealDB error: ");
            assert(text.subrange(17, 17int + cause.len()) =~= cause);
            assert(ends_with_parts(text, parts_of(e), seq![17int]));
        },
        ErrorView::Encoding(cause) => {
            reveal_strlit("Migration file encoding error: ");
            assert(text.subrange(31, 31int + cause.len()) =~= cause);
            assert(ends_with_parts(text, parts_of(e), seq![31int]));
        },
        ErrorView::NoDownFile(name) => {
            reveal_strlit("No down migration file for '");
            reveal_strlit("'");
            let b: int = 28int + name.len();
            assert(text.subrange(28, b) =~= name);
            assert(text.subrange(b, b + 1) =~= seq!['\'']);
            assert(ends_with_parts(text, parts_of(e), seq![28, b]));
        },
        ErrorView::Apply { name, stmt, sql, cause } => {
            let at = parts_of_statement_message("apply"@, name, stmt, sql, cause);
            assert(ends_with_parts(text, parts_of(e), at));
        },
        ErrorView::Rollback { name, stmt, sql, cause } => {
            let at = parts_of_statement_message("rollback"@, name, stmt, sql, cause);
            assert(ends_with_parts(text, parts_of(e), at));
        },
        ErrorView::Verification { name, expected, missing } => {
            reveal_strlit("Migration '");
            reveal_strlit("' applied but verification failed: expected tables ");
            reveal_strlit(", missing ");
            let x = quoted_list(expected);
            let y = quoted_list(missing);
            let b: int = 11int + name.len() + 51;
            let c: int = b + x.len() + 10;
            assert(text.subrange(11, 11int + name.len()) =~= name);
            assert(text.subrange(b, b + x.len()) =~= x);
            assert(text.subrange(c, c + y.len()) =~= y);
            assert(ends_with_parts(text, parts_of(e), seq![11, b, c]));
        },
    }
}

/// A list shows each of its names in quotes, in order, with a comma and a space between
/// two of them, in square brackets.
pub proof fn a_list_shows_all_names(names: Seq<Seq<char>>, name: Seq<char>)
    ensures
        quoted_list(Seq::empty()) == seq!['[', ']'],
        quoted_list(seq![name]) == seq!['['] + quoted(name) + seq![']'],
        names.len() > 0 ==> quoted_list(names.push(name)) == quoted_list(names).drop_last() + seq![
            ',',
            ' ',
        ] + quoted(name) + seq![']'],
{
    reveal_strlit("[");
    reveal_strlit("]");
    reveal_strlit(", ");
    assert(quoted_list(Seq::empty()) =~= seq!['[', ']']);
    assert(quoted_list(seq![name]) =~= seq!['['] + quoted(name) + seq![']']);
    if names.len() > 0 {
        assert(names.push(name).drop_last() =~= names);
        assert(quoted_list(names.push(name)) =~= quoted_list(names).drop_last() + seq![',', ' ']
            + quoted(name) + seq![']']);
    }
}

/// The words of a message between the parts that differ from error to error.
pub struct Wording {
    pub apply: Seq<Seq<char>>,
    pub rollback: Seq<Seq<char>>,
    pub verification: Seq<Seq<char>>,
    pub no_down_file: Seq<Seq<char>>,
    pub database: Seq<char>,
    pub encoding: Seq<char>,
}

/// The message of an error, in the given words.
pub open spec fn worded(w: Wording, e: ErrorView) -> Seq<char> {
    match e {
        ErrorView::Database(cause) => w.database + cause,
        ErrorView::Encoding(cause) => w.encoding + cause,
        ErrorView::NoDownFile(name) => w.no_down_file[0] + name + w.no_down_file[1],
        ErrorView::Apply { name, stmt, sql, cause } => w.apply[0] + name + w.apply[1] + decimal(
            stmt,
        ) + w.apply[2] + cause + w.apply[3] + sql,
        ErrorView::Rollback { name, stmt, sql, cause } => w.rollback[0] + name + w.rollback[1]
            + decimal(stmt) + w.rollback[2] + cause + w.rollback[3] + sql,
        ErrorView::Verification { name, expected, missing } => w.verification[0] + name
            + w.verification[1] + quoted_list(expected) + w.verification[2] + quoted_list(missing),
    }
}

/// Whether all messages are in the given words.
pub open spec fn words_all_messages(w: Wording) -> bool {
    forall|e: ErrorView| #[trigger] e.message() == worded(w, e)
}

/// The words of a message are the same for all errors of a kind, whatever they hold.
pub proof fn all_messages_have_the_same_words()
    ensures
        exists|w: Wording| #[trigger] words_all_messages(w),
{
    let w = Wording {
        apply: seq![
            "Failed to "@ + "apply"@ + " migration '"@,
            "' at statement #"@,
            ": "@,
            "\n  SQL: "@,
        ],
        rollback: seq![
            "Failed to "@ + "rollback"@ + " migration '"@,
            "' at statement #"@,
            ": "@,
            "\n  SQL: "@,
        ],
        verification: seq![
            "Migration '"@,
            "' applied but verification failed: expected tables "@,
            ", missing "@,
        ],
        no_down_file: seq!["No down migration file for '"@, "'"@],
        database: "SurrealDB error: "@,
        encoding: "Migration file encoding error: "@,
    };
    assert forall|e: ErrorView| #[trigger] e.message() == worded(w, e) by {}
    assert(words_all_messages(w));
}

} // verus!
