use merk_migrations::tables::{contains_name, extract_defined_tables, verify_applied};
use merk_migrations::MigrationError;

fn strings(items: &[&str]) -> Vec<String> {
    items.iter().map(|s| s.to_string()).collect()
}

#[test]
fn extracts_table_names_overwrite_and_qualifiers() {
    let sql = r#"
            DEFINE TABLE OVERWRITE user SCHEMAFULL;
            DEFINE TABLE IF NOT EXISTS profile SCHEMAFULL;
            DEFINE TABLE wrote TYPE RELATION IN author OUT book;
            DEFINE FIELD x ON user TYPE string;
        "#;
    let names = extract_defined_tables(sql);
    assert_eq!(names, vec!["user", "profile", "wrote"]);
}

#[test]
fn keywords_are_recognised_in_any_case() {
    assert_eq!(extract_defined_tables("define Table overWrite a;"), vec!["a"]);
}

#[test]
fn names_lose_the_punctuation_around_them() {
    assert_eq!(extract_defined_tables("DEFINE TABLE `a_1`; DEFINE TABLE b;"), vec!["a_1", "b"]);
    assert_eq!(extract_defined_tables("DEFINE TABLE a-b;"), vec!["a-b"]);
    assert_eq!(extract_defined_tables("DEFINE TABLE \u{e9}; DEFINE TABLE x\u{e9};"), vec!["x"]);
}

#[test]
fn a_table_may_be_named_like_a_keyword() {
    assert_eq!(extract_defined_tables("DEFINE TABLE DEFINE TABLE x y"), vec!["DEFINE", "x"]);
}

#[test]
fn commented_definitions_do_not_count() {
    assert_eq!(
        extract_defined_tables("-- DEFINE TABLE a\nDEFINE/* */TABLE /* b */ c SCHEMALESS;"),
        vec!["c"]
    );
}

#[test]
fn a_semicolon_separates_definitions() {
    assert_eq!(extract_defined_tables("DEFINE TABLE a;DEFINE TABLE b;"), vec!["a", "b"]);
    assert_eq!(extract_defined_tables("DEFINE TABLE;DEFINE TABLE b"), vec!["b"]);
}

#[test]
fn a_quoted_name_is_a_name() {
    assert_eq!(extract_defined_tables("DEFINE TABLE 'x' SCHEMAFULL;"), vec!["x"]);
    assert_eq!(extract_defined_tables("DEFINE TABLE OVERWRITE \"y z\";"), vec!["y z"]);
    assert_eq!(extract_defined_tables("DEFINE TABLE `a;b`;DEFINE TABLE `c d`;"), vec!["a;b", "c d"]);
    assert_eq!(extract_defined_tables("DEFINE TABLE `IF` SCHEMAFULL;"), vec!["IF"]);
    assert_eq!(extract_defined_tables("DEFINE TABLE `a; DEFINE TABLE b;"), vec!["a", "b"]);
    assert_eq!(extract_defined_tables("DEFINE 'TABLE' x y;"), Vec::<String>::new());
    assert_eq!(extract_defined_tables("DEFINE TABLE '' x;"), Vec::<String>::new());
}

#[test]
fn a_word_before_the_semicolon_is_the_name() {
    assert_eq!(extract_defined_tables("DEFINE TABLE EXISTS;"), vec!["EXISTS"]);
    assert_eq!(extract_defined_tables("DEFINE TABLE overwrite ;"), vec!["overwrite"]);
    assert_eq!(extract_defined_tables("DEFINE TABLE IF NOT EXISTS if;"), vec!["if"]);
    assert_eq!(extract_defined_tables("DEFINE TABLE IF NOT EXISTS;x"), vec!["EXISTS"]);
}

#[test]
fn what_stands_in_strings_defines_nothing() {
    assert_eq!(
        extract_defined_tables("DEFINE FIELD x ON t TYPE string DEFAULT ' DEFINE TABLE z ';"),
        Vec::<String>::new()
    );
    assert_eq!(
        extract_defined_tables("LET $x = \"; DEFINE TABLE z\";DEFINE TABLE y;"),
        vec!["y"]
    );
}

#[test]
fn nothing_is_defined_without_a_name() {
    assert_eq!(extract_defined_tables(""), Vec::<String>::new());
    assert_eq!(extract_defined_tables("DEFINE TABLE"), Vec::<String>::new());
    assert_eq!(extract_defined_tables("DEFINE TABLE IF NOT EXISTS"), Vec::<String>::new());
    assert_eq!(extract_defined_tables("DEFINE TABLE ;;; x"), Vec::<String>::new());
}

#[test]
fn verification_lists_what_is_missing() {
    let expected = strings(&["a", "b", "c"]);
    assert_eq!(verify_applied("m".to_string(), strings(&["a", "b"]), &strings(&["b", "x", "a"])), Ok(()));
    assert_eq!(verify_applied("m".to_string(), Vec::new(), &Vec::new()), Ok(()));
    assert_eq!(
        verify_applied("m".to_string(), expected, &strings(&["b"])),
        Err(MigrationError::Verification {
            name: "m".to_string(),
            expected: strings(&["a", "b", "c"]),
            missing: strings(&["a", "c"]),
        })
    );
}

#[test]
fn names_are_looked_up_exactly() {
    let names = strings(&["a", "bc"]);
    assert!(contains_name(&names, &"bc".to_string()));
    assert!(!contains_name(&names, &"b".to_string()));
    assert!(!contains_name(&names, &"A".to_string()));
}
