use merk_migrations::files::{discover_migrations, load_file, migration_name};
use merk_migrations::{File, Files, MigrationError};

fn files(entries: &[(&str, &[u8])]) -> Files {
    Files {
        entries: entries
            .iter()
            .map(|(path, data)| File { path: path.to_string(), data: data.to_vec() })
            .collect(),
    }
}

#[test]
fn migrations_are_found_in_both_folders_once_and_in_order() {
    let all = files(&[
        ("up/0010_c.surql", b""),
        ("up/0002_b.surql", b""),
        ("down/0002_b.surql", b""),
        ("down/0001_a.surql", b""),
        ("README.md", b""),
        ("up/0003_x.sql", b""),
        ("other/0004.surql", b""),
        ("xup/0005.surql", b""),
    ]);
    assert_eq!(discover_migrations(&all), vec!["0001_a", "0002_b", "0010_c"]);
    assert_eq!(discover_migrations(&files(&[])), Vec::<String>::new());
}

#[test]
fn a_name_is_what_stands_between_folder_and_suffix() {
    assert_eq!(migration_name("up/a.surql"), Some("a".to_string()));
    assert_eq!(migration_name("down/a/b.surql"), Some("a/b".to_string()));
    assert_eq!(migration_name("up/a.surql.surql"), Some("a.surql".to_string()));
    assert_eq!(migration_name("up/.surql"), Some(String::new()));
    assert_eq!(migration_name("up/surql"), None);
    assert_eq!(migration_name("up/"), None);
    assert_eq!(migration_name("Up/a.surql"), None);
    assert_eq!(migration_name("a.up.surql"), None);
}

#[test]
fn files_are_found_by_their_path() {
    let all = files(&[("up/a.surql", b"one"), ("up/b.surql", b"two"), ("up/a.surql", b"three")]);
    assert_eq!(all.get("up/a.surql"), Some(&b"one".to_vec()));
    assert_eq!(all.get("up/b.surql"), Some(&b"two".to_vec()));
    assert_eq!(all.get("up/c.surql"), None);
}

#[test]
fn file_texts_are_decoded() {
    let all = files(&[("up/a.surql", "caf\u{e9} \u{1f600}".as_bytes()), ("up/e.surql", b"")]);
    assert_eq!(load_file(&all, "up/a.surql"), Ok("caf\u{e9} \u{1f600}".to_string()));
    assert_eq!(load_file(&all, "up/e.surql"), Ok(String::new()));
}

#[test]
fn a_missing_file_is_named_by_its_path() {
    assert_eq!(
        load_file(&files(&[]), "up/a.surql"),
        Err(MigrationError::NoDownFile("up/a.surql".to_string()))
    );
}

#[test]
fn a_file_that_is_no_text_is_refused() {
    let all = files(&[("up/a.surql", &[0x61, 0xff, 0x62]), ("up/b.surql", &[0x61, 0xc3])]);
    assert_eq!(
        load_file(&all, "up/a.surql"),
        Err(MigrationError::Encoding("invalid utf-8 sequence of 1 bytes from index 1".to_string()))
    );
    assert_eq!(
        load_file(&all, "up/b.surql"),
        Err(MigrationError::Encoding("incomplete utf-8 byte sequence from index 1".to_string()))
    );
}
