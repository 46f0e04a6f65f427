use merk_migrations::plan::{Direction, Task};
use merk_migrations::{
    File, Files, MigrationError, MigrationRecord, MigrationStatus, Migrator, Progress, Reply,
    Report, Request, Run,
};

/// A database that keeps its markers and knows `DEFINE TABLE` and `REMOVE TABLE`.
struct Database {
    markers: Vec<(String, Option<u32>)>,
    tables: Vec<String>,
    log: Vec<String>,
    refused: Option<String>,
}

impl Database {
    fn new() -> Database {
        Database { markers: Vec::new(), tables: Vec::new(), log: Vec::new(), refused: None }
    }

    fn perform(&mut self, request: &Request) -> Reply {
        let sql = request.sql();
        self.log.push(match request {
            Request::InsertMarker { name, batch } => format!("mark {} {}", name, batch),
            Request::DeleteMarker { name } => format!("unmark {}", name),
            _ => sql.clone(),
        });
        if self.refused == Some(sql.clone()) {
            return Reply::Failed("refused".to_string());
        }
        match request {
            Request::DefineMarkers => self.add_table("_migrations"),
            Request::SelectMarkers => {
                let mut rows = self.markers.clone();
                rows.sort();
                return Reply::Markers(
                    rows.into_iter().map(|(name, batch)| MigrationRecord { name, batch }).collect(),
                );
            }
            Request::ListTables => {
                self.tables.sort();
                return Reply::Tables(Some(self.tables.clone()));
            }
            Request::Execute { sql } => {
                if let Some(table) = sql.strip_prefix("DEFINE TABLE ") {
                    self.add_table(table);
                }
                if let Some(table) = sql.strip_prefix("REMOVE TABLE ") {
                    self.tables.retain(|t| t != table);
                }
            }
            Request::DropTable { table } => self.tables.retain(|t| t != table),
            Request::ClearMarkers => self.markers.clear(),
            Request::InsertMarker { name, batch } => {
                self.markers.push((name.clone(), Some(*batch)));
            }
            Request::DeleteMarker { name } => self.markers.retain(|(n, _)| n != name),
        }
        Reply::Done
    }

    fn add_table(&mut self, table: &str) {
        if !self.tables.contains(&table.to_string()) {
            self.tables.push(table.to_string());
        }
    }

    fn drive(&mut self, run: Run) -> Result<Report, MigrationError> {
        let mut run = run;
        loop {
            let reply = self.perform(&run.request());
            assert!(run.accepts(&reply));
            match run.resume(reply) {
                Progress::Waiting(next) => run = next,
                Progress::Finished(result) => return result,
            }
        }
    }

    fn taken_log(&mut self) -> Vec<String> {
        std::mem::take(&mut self.log)
    }
}

const DEFINE: &str = "DEFINE TABLE IF NOT EXISTS _migrations SCHEMALESS";
const SELECT: &str = "SELECT * FROM _migrations ORDER BY name ASC";
const TABLES: &str = "LET $i = INFO FOR DB; RETURN object::keys($i.tables)";
const CLEAR: &str = "DELETE FROM _migrations";

fn files_of(entries: &[(&str, &str)]) -> Files {
    Files {
        entries: entries
            .iter()
            .map(|(path, text)| File { path: path.to_string(), data: text.as_bytes().to_vec() })
            .collect(),
    }
}

fn two_migrations() -> Files {
    files_of(&[
        ("up/0002_b.surql", "DEFINE TABLE b;"),
        ("up/0001_a.surql", "-- users\nDEFINE TABLE a; CREATE a:1;"),
        ("down/0001_a.surql", "REMOVE TABLE a;"),
        ("down/0002_b.surql", "REMOVE TABLE b;"),
    ])
}

fn three_migrations() -> Files {
    let mut files = two_migrations();
    files.entries.push(File { path: "up/0003_c.surql".to_string(), data: b"LET $x = 1".to_vec() });
    files.entries.push(File { path: "down/0003_c.surql".to_string(), data: Vec::new() });
    files
}

fn marker(name: &str, batch: u32) -> (String, Option<u32>) {
    (name.to_string(), Some(batch))
}

fn status(name: &str, applied: bool, batch: Option<u32>) -> MigrationStatus {
    MigrationStatus { name: name.to_string(), applied, batch }
}

#[test]
fn up_applies_everything_in_order() {
    let mut db = Database::new();
    assert_eq!(db.drive(Migrator::up(two_migrations(), None)), Ok(Report::Done));
    assert_eq!(
        db.taken_log(),
        vec![
            DEFINE,
            SELECT,
            SELECT,
            "DEFINE TABLE a",
            "CREATE a:1",
            TABLES,
            "mark 0001_a 1",
            "DEFINE TABLE b",
            TABLES,
            "mark 0002_b 1",
        ]
    );
    assert_eq!(db.markers, vec![marker("0001_a", 1), marker("0002_b", 1)]);
}

#[test]
fn up_looks_for_no_tables_if_none_is_defined() {
    let mut db = Database::new();
    let files = files_of(&[("up/1.surql", "LET $x = 1")]);
    assert_eq!(db.drive(Migrator::up(files, None)), Ok(Report::Done));
    assert_eq!(db.taken_log(), vec![DEFINE, SELECT, SELECT, "LET $x = 1", "mark 1 1"]);
}

#[test]
fn up_applies_only_the_next_steps() {
    let mut db = Database::new();
    assert_eq!(db.drive(Migrator::up(three_migrations(), Some(1))), Ok(Report::Done));
    assert_eq!(db.markers, vec![marker("0001_a", 1)]);
    assert_eq!(db.drive(Migrator::up(three_migrations(), Some(5))), Ok(Report::Done));
    assert_eq!(db.markers, vec![marker("0001_a", 1), marker("0002_b", 2), marker("0003_c", 2)]);
}

#[test]
fn up_of_no_steps_applies_nothing() {
    let mut db = Database::new();
    assert_eq!(db.drive(Migrator::up(two_migrations(), Some(0))), Ok(Report::Done));
    assert_eq!(db.taken_log(), vec![DEFINE, SELECT, SELECT]);
    assert_eq!(db.markers, vec![]);
}

#[test]
fn two_limited_ups_mark_what_one_of_both_their_steps_marks() {
    let mut once = Database::new();
    let mut twice = Database::new();
    assert_eq!(once.drive(Migrator::up(three_migrations(), Some(3))), Ok(Report::Done));
    assert_eq!(twice.drive(Migrator::up(three_migrations(), Some(1))), Ok(Report::Done));
    assert_eq!(twice.drive(Migrator::up(three_migrations(), Some(2))), Ok(Report::Done));
    let names = |db: &Database| -> Vec<String> { db.markers.iter().map(|m| m.0.clone()).collect() };
    assert_eq!(names(&once), names(&twice));
}

#[test]
fn only_the_new_migration_is_applied() {
    let mut db = Database::new();
    assert_eq!(db.drive(Migrator::up(two_migrations(), None)), Ok(Report::Done));
    db.taken_log();
    assert_eq!(db.drive(Migrator::up(three_migrations(), None)), Ok(Report::Done));
    assert_eq!(db.taken_log(), vec![DEFINE, SELECT, SELECT, "LET $x = 1", "mark 0003_c 2"]);
}

#[test]
fn up_refresh_up_leaves_everything_applied() {
    let mut db = Database::new();
    assert_eq!(db.drive(Migrator::up(two_migrations(), None)), Ok(Report::Done));
    let all = vec![status("0001_a", true, Some(1)), status("0002_b", true, Some(1))];
    assert_eq!(db.drive(Migrator::status(two_migrations())), Ok(Report::Statuses(all)));
    db.taken_log();

    assert_eq!(db.drive(Migrator::refresh(two_migrations())), Ok(Report::Done));
    assert_eq!(
        db.taken_log(),
        vec![
            DEFINE,
            SELECT,
            DEFINE,
            SELECT,
            "REMOVE TABLE b",
            "unmark 0002_b",
            "REMOVE TABLE a",
            "unmark 0001_a",
            DEFINE,
            SELECT,
            SELECT,
            "DEFINE TABLE a",
            "CREATE a:1",
            TABLES,
            "mark 0001_a 1",
            "DEFINE TABLE b",
            TABLES,
            "mark 0002_b 1",
        ]
    );
    let all = vec![status("0001_a", true, Some(1)), status("0002_b", true, Some(1))];
    assert_eq!(db.drive(Migrator::status(two_migrations())), Ok(Report::Statuses(all)));
    db.taken_log();

    // Another `up` is a no-op.
    assert_eq!(db.drive(Migrator::up(two_migrations(), None)), Ok(Report::Done));
    assert_eq!(db.taken_log(), vec![DEFINE, SELECT]);
}

#[test]
fn refresh_of_nothing_is_an_up() {
    let mut db = Database::new();
    assert_eq!(db.drive(Migrator::refresh(three_migrations())), Ok(Report::Done));
    assert_eq!(&db.log[..5], &[DEFINE, SELECT, DEFINE, SELECT, SELECT]);
    assert_eq!(db.markers.len(), 3);
}

#[test]
fn down_rolls_back_the_last_migration() {
    let mut db = Database::new();
    assert_eq!(db.drive(Migrator::up(two_migrations(), None)), Ok(Report::Done));
    db.taken_log();
    assert_eq!(db.drive(Migrator::down(two_migrations(), None)), Ok(Report::Done));
    assert_eq!(db.taken_log(), vec![DEFINE, SELECT, "REMOVE TABLE b", "unmark 0002_b"]);
    assert_eq!(db.markers, vec![marker("0001_a", 1)]);
    assert_eq!(db.tables, vec!["_migrations", "a"]);
}

#[test]
fn down_goes_in_reverse_order() {
    let mut db = Database::new();
    assert_eq!(db.drive(Migrator::up(three_migrations(), None)), Ok(Report::Done));
    db.taken_log();
    assert_eq!(db.drive(Migrator::down(three_migrations(), Some(3))), Ok(Report::Done));
    assert_eq!(
        db.taken_log(),
        vec![
            DEFINE,
            SELECT,
            "unmark 0003_c",
            "REMOVE TABLE b",
            "unmark 0002_b",
            "REMOVE TABLE a",
            "unmark 0001_a",
        ]
    );
    assert_eq!(db.markers, vec![]);
}

#[test]
fn down_rolls_back_what_was_applied_last() {
    let mut db = Database::new();
    db.markers = vec![marker("0002_b", 1), marker("0001_a", 2)];
    assert_eq!(db.drive(Migrator::down(two_migrations(), None)), Ok(Report::Done));
    assert_eq!(db.taken_log(), vec![DEFINE, SELECT, "REMOVE TABLE a", "unmark 0001_a"]);
    assert_eq!(db.markers, vec![marker("0002_b", 1)]);
}

#[test]
fn the_migrations_of_one_up_are_rolled_back_together() {
    let mut db = Database::new();
    db.markers = vec![marker("0002_b", 7)];
    assert_eq!(db.drive(Migrator::up(three_migrations(), None)), Ok(Report::Done));
    assert_eq!(
        db.markers,
        vec![marker("0002_b", 7), marker("0001_a", 8), marker("0003_c", 8)]
    );
    assert_eq!(db.drive(Migrator::down(three_migrations(), Some(2))), Ok(Report::Done));
    assert_eq!(db.markers, vec![marker("0002_b", 7)]);
}

#[test]
fn refresh_rolls_back_the_last_batch_first() {
    let mut db = Database::new();
    db.markers = vec![marker("0002_b", 1), marker("0001_a", 2)];
    assert_eq!(db.drive(Migrator::refresh(two_migrations())), Ok(Report::Done));
    assert_eq!(
        &db.log[..8],
        &[
            DEFINE,
            SELECT,
            DEFINE,
            SELECT,
            "REMOVE TABLE a",
            "unmark 0001_a",
            "REMOVE TABLE b",
            "unmark 0002_b",
        ]
    );
    assert_eq!(db.markers, vec![marker("0001_a", 1), marker("0002_b", 1)]);
}

#[test]
fn down_without_markers_does_nothing() {
    let mut db = Database::new();
    assert_eq!(db.drive(Migrator::down(two_migrations(), Some(2))), Ok(Report::Done));
    assert_eq!(db.taken_log(), vec![DEFINE, SELECT]);
}

#[test]
fn down_undoes_an_up_of_as_many_steps() {
    let mut db = Database::new();
    assert_eq!(db.drive(Migrator::up(three_migrations(), Some(1))), Ok(Report::Done));
    let before = db.markers.clone();
    assert_eq!(db.drive(Migrator::up(three_migrations(), None)), Ok(Report::Done));
    assert_eq!(db.drive(Migrator::down(three_migrations(), Some(2))), Ok(Report::Done));
    assert_eq!(db.markers, before);
}

#[test]
fn fresh_drops_all_tables_but_its_own() {
    let mut db = Database::new();
    db.tables = vec!["old".to_string(), "_migrations".to_string(), "a".to_string()];
    db.markers = vec![marker("0001_a", 4), marker("gone", 5)];
    assert_eq!(db.drive(Migrator::fresh(two_migrations())), Ok(Report::Done));
    assert_eq!(
        &db.log[..7],
        &[
            TABLES,
            "REMOVE TABLE IF EXISTS `a`",
            "REMOVE TABLE IF EXISTS `old`",
            CLEAR,
            DEFINE,
            SELECT,
            SELECT,
        ]
    );
    assert_eq!(db.markers, vec![marker("0001_a", 1), marker("0002_b", 1)]);
}

#[test]
fn fresh_needs_no_down_files() {
    let ups = || files_of(&[("up/1.surql", "DEFINE TABLE a"), ("up/2.surql", "DEFINE TABLE b")]);
    let mut with_downs = ups();
    with_downs.entries.push(File { path: "down/1.surql".to_string(), data: vec![0xff] });
    let mut one = Database::new();
    let mut other = Database::new();
    assert_eq!(one.drive(Migrator::fresh(ups())), Ok(Report::Done));
    assert_eq!(other.drive(Migrator::fresh(with_downs)), Ok(Report::Done));
    assert_eq!(one.log, other.log);
}

#[test]
fn a_table_list_that_cannot_be_read_counts_as_empty() {
    let run = Migrator::fresh(two_migrations());
    assert_eq!(run.request(), Request::ListTables);
    match run.resume(Reply::Tables(None)) {
        Progress::Waiting(next) => assert_eq!(next.request(), Request::ClearMarkers),
        Progress::Finished(_) => panic!("the markers are still to be deleted"),
    }
}

#[test]
fn status_tells_applied_from_pending() {
    let mut db = Database::new();
    assert_eq!(db.drive(Migrator::up(three_migrations(), Some(2))), Ok(Report::Done));
    db.taken_log();
    assert_eq!(
        db.drive(Migrator::status(three_migrations())),
        Ok(Report::Statuses(vec![
            status("0001_a", true, Some(1)),
            status("0002_b", true, Some(1)),
            status("0003_c", false, None),
        ]))
    );
    assert_eq!(db.taken_log(), vec![DEFINE, SELECT]);
}

#[test]
fn a_refused_statement_is_reported_and_applied_again() {
    let mut db = Database::new();
    db.refused = Some("CREATE a:1".to_string());
    assert_eq!(
        db.drive(Migrator::up(two_migrations(), None)),
        Err(MigrationError::Apply {
            name: "0001_a".to_string(),
            stmt: 2,
            sql: "CREATE a:1".to_string(),
            cause: "refused".to_string(),
        })
    );
    assert_eq!(db.taken_log(), vec![DEFINE, SELECT, SELECT, "DEFINE TABLE a", "CREATE a:1"]);
    assert_eq!(db.markers, vec![]);

    db.refused = None;
    assert_eq!(db.drive(Migrator::up(two_migrations(), None)), Ok(Report::Done));
    assert_eq!(db.markers, vec![marker("0001_a", 1), marker("0002_b", 1)]);
}

#[test]
fn a_later_failure_keeps_the_earlier_markers() {
    let mut db = Database::new();
    db.refused = Some("DEFINE TABLE b".to_string());
    assert!(db.drive(Migrator::up(two_migrations(), None)).is_err());
    assert_eq!(db.markers, vec![marker("0001_a", 1)]);
}

#[test]
fn a_refused_rollback_keeps_the_marker() {
    let mut db = Database::new();
    assert_eq!(db.drive(Migrator::up(two_migrations(), None)), Ok(Report::Done));
    db.refused = Some("REMOVE TABLE b".to_string());
    assert_eq!(
        db.drive(Migrator::down(two_migrations(), Some(2))),
        Err(MigrationError::Rollback {
            name: "0002_b".to_string(),
            stmt: 1,
            sql: "REMOVE TABLE b".to_string(),
            cause: "refused".to_string(),
        })
    );
    assert_eq!(db.markers, vec![marker("0001_a", 1), marker("0002_b", 1)]);
}

#[test]
fn an_error_shows_the_start_of_a_long_statement() {
    let long = "x".repeat(300);
    let mut db = Database::new();
    db.refused = Some(long.clone());
    assert_eq!(
        db.drive(Migrator::up(files_of(&[("up/1.surql", &long)]), None)),
        Err(MigrationError::Apply {
            name: "1".to_string(),
            stmt: 1,
            sql: format!("{}\u{2026}", "x".repeat(200)),
            cause: "refused".to_string(),
        })
    );
}

#[test]
fn a_missing_table_leaves_the_migration_unmarked() {
    let mut db = Database::new();
    let files = files_of(&[("up/1.surql", "DEFINE TABLE a; DEFINE TABLE IF NOT EXISTS b;")]);
    let result = db.drive(Migrator::up(files, None));
    // The database of these tests takes everything behind `DEFINE TABLE` as the name.
    assert_eq!(
        result,
        Err(MigrationError::Verification {
            name: "1".to_string(),
            expected: vec!["a".to_string(), "b".to_string()],
            missing: vec!["b".to_string()],
        })
    );
    assert_eq!(db.markers, vec![]);
}

#[test]
fn a_refused_request_of_the_runner_is_a_database_error() {
    for sql in [DEFINE, SELECT, TABLES, CLEAR] {
        let mut db = Database::new();
        db.refused = Some(sql.to_string());
        assert_eq!(
            db.drive(Migrator::fresh(two_migrations())),
            Err(MigrationError::Database("refused".to_string()))
        );
        assert_eq!(db.log.last(), Some(&sql.to_string()));
    }
}

#[test]
fn a_missing_up_file_stops_the_run_where_it_is_needed() {
    let mut db = Database::new();
    let files = files_of(&[("up/1.surql", "LET $x = 1"), ("down/2.surql", "")]);
    assert_eq!(
        db.drive(Migrator::up(files, None)),
        Err(MigrationError::NoDownFile("up/2.surql".to_string()))
    );
    assert_eq!(db.markers, vec![marker("1", 1)]);
}

#[test]
fn an_up_file_that_is_no_text_stops_the_run() {
    let mut db = Database::new();
    let files = Files { entries: vec![File { path: "up/1.surql".to_string(), data: vec![0xff] }] };
    assert_eq!(
        db.drive(Migrator::up(files, None)),
        Err(MigrationError::Encoding("invalid utf-8 sequence of 1 bytes from index 0".to_string()))
    );
    assert_eq!(db.taken_log(), vec![DEFINE, SELECT, SELECT]);
}

#[test]
fn a_missing_down_file_is_named_by_its_migration() {
    let mut db = Database::new();
    db.markers = vec![marker("1", 1)];
    let files = files_of(&[("up/1.surql", "")]);
    assert_eq!(
        db.drive(Migrator::down(files, None)),
        Err(MigrationError::NoDownFile("1".to_string()))
    );
    assert_eq!(db.markers, vec![marker("1", 1)]);
}

#[test]
fn a_down_file_that_is_no_text_is_an_encoding_error() {
    let mut db = Database::new();
    db.markers = vec![marker("1", 1)];
    let mut files = files_of(&[("up/1.surql", "")]);
    files.entries.push(File { path: "down/1.surql".to_string(), data: vec![0xff] });
    assert_eq!(
        db.drive(Migrator::down(files, None)),
        Err(MigrationError::Encoding("invalid utf-8 sequence of 1 bytes from index 0".to_string()))
    );
    assert_eq!(db.taken_log(), vec![DEFINE, SELECT]);
    assert_eq!(db.markers, vec![marker("1", 1)]);
}

#[test]
fn a_run_takes_only_replies_of_the_right_kind() {
    let run = Migrator::up(two_migrations(), None);
    assert!(run.accepts(&Reply::Done));
    assert!(run.accepts(&Reply::Failed(String::new())));
    assert!(!run.accepts(&Reply::Markers(Vec::new())));
    assert!(!run.accepts(&Reply::Tables(None)));
    let run = Migrator::fresh(two_migrations());
    assert!(run.accepts(&Reply::Tables(None)));
    assert!(run.accepts(&Reply::Tables(Some(Vec::new()))));
    assert!(!run.accepts(&Reply::Done));
}

fn next(progress: Progress) -> Run {
    match progress {
        Progress::Waiting(run) => run,
        Progress::Finished(_) => panic!("the run is over"),
    }
}

#[test]
fn a_run_needs_a_batch_number() {
    let full = || Reply::Markers(vec![MigrationRecord { name: "x".to_string(), batch: Some(u32::MAX) }]);
    let run = next(Migrator::up(two_migrations(), None).resume(Reply::Done));
    assert!(run.accepts(&full()));
    let run = next(run.resume(full()));
    assert!(!run.accepts(&full()));
    let last = Reply::Markers(vec![MigrationRecord { name: "x".to_string(), batch: Some(u32::MAX - 1) }]);
    assert!(run.accepts(&last));
}

#[test]
fn a_long_failed_statement_is_cut_between_characters() {
    for (text, shown) in [
        ("\u{e9}".repeat(150), format!("{}\u{2026}", "\u{e9}".repeat(100))),
        (format!("x{}", "\u{e9}".repeat(150)), format!("x{}\u{2026}", "\u{e9}".repeat(99))),
    ] {
        let mut db = Database::new();
        db.refused = Some(text.clone());
        assert_eq!(
            db.drive(Migrator::up(files_of(&[("up/1.surql", &text)]), None)),
            Err(MigrationError::Apply {
                name: "1".to_string(),
                stmt: 1,
                sql: shown.clone(),
                cause: "refused".to_string(),
            })
        );
        db.markers = vec![marker("1", 1)];
        assert_eq!(
            db.drive(Migrator::down(files_of(&[("down/1.surql", &text)]), None)),
            Err(MigrationError::Rollback {
                name: "1".to_string(),
                stmt: 1,
                sql: shown,
                cause: "refused".to_string(),
            })
        );
    }
}

#[test]
fn definitions_without_a_blank_between_them_are_verified() {
    let mut db = Database::new();
    let files = files_of(&[("up/1.surql", "DEFINE TABLE a;DEFINE TABLE b;")]);
    assert_eq!(db.drive(Migrator::up(files, None)), Ok(Report::Done));
    assert_eq!(db.markers, vec![marker("1", 1)]);
}

#[test]
fn fresh_and_refresh_leave_everything_in_the_first_batch() {
    for refresh in [false, true] {
        let mut db = Database::new();
        assert_eq!(db.drive(Migrator::up(three_migrations(), Some(1))), Ok(Report::Done));
        assert_eq!(db.drive(Migrator::up(three_migrations(), None)), Ok(Report::Done));
        let run =
            if refresh { Migrator::refresh(three_migrations()) } else { Migrator::fresh(three_migrations()) };
        assert_eq!(db.drive(run), Ok(Report::Done));
        assert_eq!(
            db.drive(Migrator::status(three_migrations())),
            Ok(Report::Statuses(vec![
                status("0001_a", true, Some(1)),
                status("0002_b", true, Some(1)),
                status("0003_c", true, Some(1)),
            ]))
        );
    }
}

#[test]
fn a_run_names_the_migration_at_hand() {
    let run = Migrator::up(two_migrations(), None);
    assert_eq!(run.files(), &two_migrations());
    assert_eq!(run.task(), &Task::DefineMarkers);
    assert_eq!(run.migration(), None);
    let run = next(run.resume(Reply::Done));
    assert_eq!(run.task(), &Task::PlanUp { steps: None });
    let run = next(run.resume(Reply::Markers(Vec::new())));
    assert_eq!(run.migration(), None);
    let run = next(run.resume(Reply::Markers(Vec::new())));
    assert_eq!(
        run.task(),
        &Task::Statement {
            direction: Direction::Up,
            name: "0001_a".to_string(),
            number: 1,
            sql: "DEFINE TABLE a".to_string(),
        }
    );
    assert_eq!(run.migration(), Some(&"0001_a".to_string()));
}

#[test]
fn requests_have_their_text() {
    assert_eq!(Request::DefineMarkers.sql(), DEFINE);
    assert_eq!(Request::SelectMarkers.sql(), SELECT);
    assert_eq!(Request::ListTables.sql(), TABLES);
    assert_eq!(Request::Execute { sql: "a b".to_string() }.sql(), "a b");
    assert_eq!(Request::DropTable { table: "t".to_string() }.sql(), "REMOVE TABLE IF EXISTS `t`");
    assert_eq!(Request::ClearMarkers.sql(), CLEAR);
    assert_eq!(
        Request::InsertMarker { name: "n".to_string(), batch: 1 }.sql(),
        "CREATE _migrations SET name = $name, batch = $batch, applied_at = time::now()"
    );
    assert_eq!(
        Request::DeleteMarker { name: "n".to_string() }.sql(),
        "DELETE FROM _migrations WHERE name = $name"
    );
}
