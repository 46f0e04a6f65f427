//! The conversation with the database: what a run asks for, and what it is told.

use vstd::prelude::*;

use crate::history::{MigrationRecord, RecordView};

verus! {

broadcast use vstd::string::group_string_axioms;

/// Something that the database is asked to do. The records of the `_migrations`
/// table are its markers.
#[derive(Debug, PartialEq, Eq)]
pub enum Request {
    /// Create the `_migrations` table if there is none.
    DefineMarkers,
    /// Give all markers, ordered by name.
    SelectMarkers,
    /// Give the names of all tables.
    ListTables,
    /// Run a statement of a migration file.
    Execute { sql: String },
    /// Remove a table.
    DropTable { table: String },
    /// Delete all markers.
    ClearMarkers,
    /// Mark a migration as applied.
    InsertMarker { name: String, batch: u32 },
    /// Delete the markers of a migration.
    DeleteMarker { name: String },
}

/// The contents of a `Request`.
pub enum RequestView {
    DefineMarkers,
    SelectMarkers,
    ListTables,
    Execute { sql: Seq<char> },
    DropTable { table: Seq<char> },
    ClearMarkers,
    InsertMarker { name: Seq<char>, batch: u32 },
    DeleteMarker { name: Seq<char> },
}

impl View for Request {
    type V = RequestView;

    open spec fn view(&self) -> RequestView {
        match *self {
            Request::DefineMarkers => RequestView::DefineMarkers,
            Request::SelectMarkers => RequestView::SelectMarkers,
            Request::ListTables => RequestView::ListTables,
            Request::Execute { sql } => RequestView::Execute { sql: sql@ },
            Request::DropTable { table } => RequestView::DropTable { table: table@ },
            Request::ClearMarkers => RequestView::ClearMarkers,
            Request::InsertMarker { name, batch } => RequestView::InsertMarker {
                name: name@,
                batch,
            },
            Request::DeleteMarker { name } => RequestView::DeleteMarker { name: name@ },
        }
    }
}

impl RequestView {
    /// The SurrealQL text of a request. `$name` and `$batch` stand for the name and
    /// the batch number that the request carries.
    pub open spec fn sql(self) -> Seq<char> {
        match self {
            RequestView::DefineMarkers => "DEFINE TABLE IF NOT EXISTS _migrations SCHEMALESS"@,
            RequestView::SelectMarkers => "SELECT * FROM _migrations ORDER BY name ASC"@,
            RequestView::ListTables => "LET $i = INFO FOR DB; RETURN object::keys($i.tables)"@,
            RequestView::Execute { sql } => sql,
            RequestView::DropTable { table } => "REMOVE TABLE IF EXISTS `"@ + table + "`"@,
            RequestView::ClearMarkers => "DELETE FROM _migrations"@,
            RequestView::InsertMarker { .. } =>
                "CREATE _migrations SET name = $name, batch = $batch, applied_at = time::now()"@,
            RequestView::DeleteMarker { .. } => "DELETE FROM _migrations WHERE name = $name"@,
        }
    }
}

impl Request {
    /// The SurrealQL text of a request.
    pub fn sql(&self) -> (r: String)
        ensures
            r@ == self@.sql(),
    {
        match self {
            Request::DefineMarkers => {
                "DEFINE TABLE IF NOT EXISTS _migrations SCHEMALESS".to_owned()
            },
            Request::SelectMarkers => "SELECT * FROM _migrations ORDER BY name ASC".to_owned(),
            Request::ListTables => {
                "LET $i = INFO FOR DB; RETURN object::keys($i.tables)".to_owned()
            },
            Request::Execute { sql } => sql.clone(),
            Request::DropTable { table } => {
                let mut r = "REMOVE TABLE IF EXISTS `".to_owned();
                r.append(table.as_str());
                r.append("`");
                r
            },
            Request::ClearMarkers => "DELETE FROM _migrations".to_owned(),
            Request::InsertMarker { .. } => {
                "CREATE _migrations SET name = $name, batch = $batch, applied_at = time::now()".to_owned()
            },
            Request::DeleteMarker { .. } => "DELETE FROM _migrations WHERE name = $name".to_owned(),
        }
    }
}

/// What became of a request.
#[derive(Debug, PartialEq, Eq)]
pub enum Reply {
    /// It was carried out.
    Done,
    /// The markers that were asked for.
    Markers(Vec<MigrationRecord>),
    /// The table names that were asked for; `None` if the answer holds no such list.
    Tables(Option<Vec<String>>),
    /// It failed; holds what the database said.
    Failed(String),
}

/// The contents of a `Reply`.
pub enum ReplyView {
    Done,
    Markers(Seq<RecordView>),
    Tables(Option<Seq<Seq<char>>>),
    Failed(Seq<char>),
}

impl View for Reply {
    type V = ReplyView;

    open spec fn view(&self) -> ReplyView {
        match *self {
            Reply::Done => ReplyView::Done,
            Reply::Markers(records) => ReplyView::Markers(records.deep_view()),
            Reply::Tables(Some(names)) => ReplyView::Tables(Some(names.deep_view())),
            Reply::Tables(None) => ReplyView::Tables(None),
            Reply::Failed(cause) => ReplyView::Failed(cause@),
        }
    }
}

/// The table names in a reply; none if the answer holds no list.
pub open spec fn listed(tables: Option<Seq<Seq<char>>>) -> Seq<Seq<char>> {
    match tables {
        Some(names) => names,
        None => Seq::empty(),
    }
}

/// Whether a reply is of the kind that the request calls for.
pub open spec fn answers(request: RequestView, reply: ReplyView) -> bool {
    ||| reply is Failed
    ||| match request {
        RequestView::SelectMarkers => reply is Markers,
        RequestView::ListTables => reply is Tables,
        _ => reply is Done,
    }
}

} // verus!
