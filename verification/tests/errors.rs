use merk_migrations::MigrationError;

fn strings(items: &[&str]) -> Vec<String> {
    items.iter().map(|s| s.to_string()).collect()
}

#[test]
fn database_errors_hold_the_cause() {
    let e = MigrationError::Database("no route".to_string());
    assert_eq!(e.message(), "SurrealDB error: no route");
}

#[test]
fn encoding_errors_hold_the_fault() {
    let e = MigrationError::Encoding("bad byte".to_string());
    assert_eq!(e.message(), "Migration file encoding error: bad byte");
}

#[test]
fn missing_files_are_named() {
    let e = MigrationError::NoDownFile("0001_a".to_string());
    assert_eq!(e.message(), "No down migration file for '0001_a'");
}

#[test]
fn failed_statements_are_told_by_number_and_text() {
    let e = MigrationError::Apply {
        name: "0001_a".to_string(),
        stmt: 12,
        sql: "DEFINE".to_string(),
        cause: "parse error".to_string(),
    };
    assert_eq!(
        e.message(),
        "Failed to apply migration '0001_a' at statement #12: parse error\n  SQL: DEFINE"
    );
    let e = MigrationError::Rollback {
        name: "0001_a".to_string(),
        stmt: 1,
        sql: "REMOVE".to_string(),
        cause: "parse error".to_string(),
    };
    assert_eq!(
        e.message(),
        "Failed to rollback migration '0001_a' at statement #1: parse error\n  SQL: REMOVE"
    );
}

#[test]
fn missing_tables_are_listed() {
    let e = MigrationError::Verification {
        name: "m".to_string(),
        expected: strings(&["a", "b\"\n", "c"]),
        missing: strings(&["c"]),
    };
    assert_eq!(
        e.message(),
        "Migration 'm' applied but verification failed: expected tables [\"a\", \"b\\\"\\n\", \"c\"], missing [\"c\"]"
    );
    let e = MigrationError::Verification {
        name: "m".to_string(),
        expected: Vec::new(),
        missing: Vec::new(),
    };
    assert_eq!(
        e.message(),
        "Migration 'm' applied but verification failed: expected tables [], missing []"
    );
}
