use merk_migrations::history::{
    highest_batch, latest_names, limit, migration_statuses, next_batch, pending_migrations,
    rollback_names, status_table, was_applied_before,
};
use merk_migrations::{File, Files, MigrationRecord, MigrationStatus};

fn migrations(names: &[&str]) -> Files {
    Files {
        entries: names
            .iter()
            .map(|n| File { path: format!("up/{}.surql", n), data: Vec::new() })
            .collect(),
    }
}

fn record(name: &str, batch: Option<u32>) -> MigrationRecord {
    MigrationRecord { name: name.to_string(), batch }
}

fn status(name: &str, applied: bool, batch: Option<u32>) -> MigrationStatus {
    MigrationStatus { name: name.to_string(), applied, batch }
}

#[test]
fn what_has_no_record_is_pending() {
    let all = migrations(&["c", "a", "b"]);
    assert_eq!(pending_migrations(&all, &vec![]), vec!["a", "b", "c"]);
    assert_eq!(pending_migrations(&all, &vec![record("b", Some(1)), record("x", None)]), vec!["a", "c"]);
}

#[test]
fn the_next_batch_follows_the_highest() {
    assert_eq!(next_batch(&vec![]), 1);
    assert_eq!(next_batch(&vec![record("a", None)]), 1);
    let records = vec![record("a", Some(2)), record("b", Some(7)), record("c", None), record("d", Some(3))];
    assert_eq!(highest_batch(&records), 7);
    assert_eq!(next_batch(&records), 8);
}

#[test]
fn limits_keep_the_first() {
    let names = || vec!["a".to_string(), "b".to_string(), "c".to_string()];
    assert_eq!(limit(names(), None), vec!["a", "b", "c"]);
    assert_eq!(limit(names(), Some(2)), vec!["a", "b"]);
    assert_eq!(limit(names(), Some(0)), Vec::<String>::new());
    assert_eq!(limit(names(), Some(9)), vec!["a", "b", "c"]);
}

#[test]
fn the_last_record_is_rolled_back_first() {
    let records = vec![record("a", Some(1)), record("b", Some(1)), record("c", Some(2))];
    assert_eq!(rollback_names(&records, None), vec!["c"]);
    assert_eq!(rollback_names(&records, Some(2)), vec!["c", "b"]);
    assert_eq!(rollback_names(&records, Some(0)), Vec::<String>::new());
    assert_eq!(rollback_names(&records, Some(5)), vec!["c", "b", "a"]);
    assert_eq!(rollback_names(&vec![], None), Vec::<String>::new());
}

#[test]
fn the_last_batch_is_rolled_back_first() {
    let records = vec![record("0001_a", Some(2)), record("0002_b", Some(1))];
    assert_eq!(rollback_names(&records, None), vec!["0001_a"]);
    assert_eq!(rollback_names(&records, Some(2)), vec!["0001_a", "0002_b"]);
    let records = vec![
        record("a", Some(2)),
        record("b", None),
        record("c", Some(1)),
        record("d", Some(2)),
        record("e", Some(10)),
        record("a2", None),
    ];
    assert_eq!(latest_names(&records), vec!["e", "d", "a", "c", "b", "a2"]);
    assert_eq!(rollback_names(&records, Some(3)), vec!["e", "d", "a"]);
}

#[test]
fn the_order_of_application_is_by_batch_then_name() {
    let a1 = record("a", Some(1));
    let b1 = record("b", Some(1));
    let a2 = record("a", Some(2));
    let none = record("z", None);
    assert!(was_applied_before(&a1, &b1) && !was_applied_before(&b1, &a1));
    assert!(was_applied_before(&b1, &a2) && !was_applied_before(&a2, &b1));
    assert!(was_applied_before(&none, &a1) && !was_applied_before(&a1, &none));
    assert!(!was_applied_before(&a1, &a1));
    assert!(was_applied_before(&record("a", None), &none));
}

#[test]
fn every_migration_has_a_status() {
    let all = migrations(&["c", "a", "b"]);
    let records = vec![record("a", Some(1)), record("b", None), record("x", Some(4)), record("a", Some(3))];
    assert_eq!(
        migration_statuses(&all, &records),
        vec![status("a", true, Some(3)), status("b", true, None), status("c", false, None)]
    );
}

#[test]
fn all_are_applied_if_and_only_if_none_is_pending() {
    let all = migrations(&["a", "b"]);
    let some = vec![record("a", Some(1))];
    let both = vec![record("a", Some(1)), record("b", Some(1))];
    assert!(!migration_statuses(&all, &some).iter().all(|s| s.applied));
    assert_eq!(pending_migrations(&all, &some), vec!["b"]);
    assert!(migration_statuses(&all, &both).iter().all(|s| s.applied));
    assert!(pending_migrations(&all, &both).is_empty());
}

#[test]
fn the_status_table_lines_up() {
    let list = vec![
        status("0001_initial_schema", true, Some(1)),
        status("0002_rbac_graphs", true, Some(1)),
        status("0003_book_platform", true, Some(2)),
        status("0004_user_extensions", false, None),
    ];
    assert_eq!(
        status_table(&list),
        vec![
            " Status    Batch  Name                ".to_string(),
            "\u{2500}".repeat(42),
            " applied   1      0001_initial_schema ".to_string(),
            " applied   1      0002_rbac_graphs    ".to_string(),
            " applied   2      0003_book_platform  ".to_string(),
            " pending   -      0004_user_extensions".to_string(),
        ]
    );
}

#[test]
fn the_status_table_of_nothing_has_its_heading() {
    assert_eq!(
        status_table(&vec![]),
        vec![" Status    Batch  Name".to_string(), "\u{2500}".repeat(26)]
    );
}

#[test]
fn the_status_table_gives_way_to_long_numbers() {
    let list = vec![status("\u{e9}\u{e9}\u{e9}", true, Some(1234567))];
    assert_eq!(
        status_table(&list),
        vec![
            " Status    Batch  Name  ".to_string(),
            "\u{2500}".repeat(28),
            " applied   1234567  \u{e9}\u{e9}\u{e9}   ".to_string(),
        ]
    );
}
