use merk_migrations::surql::{
    split_code_words, split_statements, strip_comments_and_normalize_ws, unterminated_statement,
    Word,
};

#[test]
fn splits_simple_statements() {
    let sql = "DEFINE TABLE a; DEFINE TABLE b;";
    let stmts = split_statements(sql);
    assert_eq!(stmts.len(), 2);
    assert_eq!(stmts[0], "DEFINE TABLE a");
    assert_eq!(stmts[1], "DEFINE TABLE b");
}

#[test]
fn skips_line_comments() {
    let sql = "-- top\nDEFINE TABLE a; -- trailing\nDEFINE TABLE b;";
    let stmts = split_statements(sql);
    assert_eq!(stmts.len(), 2);
}

#[test]
fn respects_braces_in_event_body() {
    let sql = r#"
            DEFINE EVENT e ON TABLE t
                WHEN $event = "CREATE"
            THEN {
                LET $x = 1;
                UPDATE t SET y = $x;
            };
            DEFINE TABLE u;
        "#;
    let stmts = split_statements(sql);
    assert_eq!(stmts.len(), 2);
    assert!(stmts[0].contains("DEFINE EVENT"));
    assert!(stmts[0].contains("LET $x = 1"));
    assert!(stmts[1] == "DEFINE TABLE u");
}

#[test]
fn respects_semicolons_in_strings() {
    let sql = r#"DEFINE FIELD x ON t TYPE string DEFAULT 'a;b;c'; DEFINE TABLE u;"#;
    let stmts = split_statements(sql);
    assert_eq!(stmts.len(), 2);
    assert!(stmts[0].contains("'a;b;c'"));
}

#[test]
fn line_comments_leave_nothing_behind() {
    let sql = "-- top\nDEFINE TABLE a; -- trailing\nDEFINE TABLE b;";
    assert_eq!(split_statements(sql), vec!["DEFINE TABLE a", "DEFINE TABLE b"]);
}

#[test]
fn block_comments_leave_nothing_behind() {
    assert_eq!(split_statements("a/* ; ' { */b; /**/ c; /* x **/ d"), vec!["ab", "c", "d"]);
    assert_eq!(split_statements("a /* never closed ; b"), vec!["a"]);
    assert_eq!(split_statements("a /*/ b; */ c"), vec!["a  c"]);
}

#[test]
fn empty_statements_are_skipped() {
    assert_eq!(split_statements(""), Vec::<String>::new());
    assert_eq!(split_statements(" \n\t;; ; -- only a comment\n;"), Vec::<String>::new());
}

#[test]
fn statements_are_trimmed() {
    assert_eq!(split_statements("\u{a0} a  b \n;\u{3000}c\u{2028}"), vec!["a  b", "c"]);
}

#[test]
fn the_last_statement_needs_no_semicolon() {
    assert_eq!(split_statements("a; b"), vec!["a", "b"]);
}

#[test]
fn a_semicolon_ends_a_statement() {
    let left = "x = { y; }; 'q;'";
    let right = "z; /* ; */ w";
    let mut both = split_statements(left);
    both.extend(split_statements(right));
    assert_eq!(split_statements(&format!("{};{}", left, right)), both);
    assert_eq!(both, vec!["x = { y; }", "'q;'", "z", "w"]);
}

#[test]
fn escaped_quotes_stay_in_their_string() {
    assert_eq!(split_statements(r"a = 'it\'s; fine'; b"), vec![r"a = 'it\'s; fine'", "b"]);
    assert_eq!(split_statements(r"a = '\\'; b"), vec![r"a = '\\'", "b"]);
    assert_eq!(split_statements(r"a = 'open\"), vec![r"a = 'open\"]);
}

#[test]
fn strings_hide_comments_and_other_quotes() {
    assert_eq!(
        split_statements("a = \"it's -- no; /* comment\"; b"),
        vec!["a = \"it's -- no; /* comment\"", "b"]
    );
    assert_eq!(split_statements("a = 'never closed; b"), vec!["a = 'never closed; b"]);
}

#[test]
fn single_dashes_and_slashes_are_text() {
    assert_eq!(split_statements("a - b / c * d;-e"), vec!["a - b / c * d", "-e"]);
    assert_eq!(split_statements("a -"), vec!["a -"]);
}

#[test]
fn a_block_is_one_statement() {
    assert_eq!(split_statements("{ a; { b; } -- c;\n d; }"), vec!["{ a; { b; } \n d; }"]);
}

#[test]
fn a_brace_too_many_hides_the_semicolons_after_it() {
    assert_eq!(split_statements("}; a; {; b; c"), vec!["}; a; {", "b", "c"]);
}

#[test]
fn comments_become_spaces() {
    assert_eq!(strip_comments_and_normalize_ws("a--x\nb"), "a b");
    assert_eq!(strip_comments_and_normalize_ws("a/* x */b"), "a b");
    assert_eq!(strip_comments_and_normalize_ws("a/* x"), "a ");
    assert_eq!(strip_comments_and_normalize_ws("'--' \"/*\" \\"), "'--' \"/*\" \\");
    assert_eq!(strip_comments_and_normalize_ws(r"'\'--'--"), r"'\'--' ");
}

#[test]
fn white_space_is_normalized() {
    assert_eq!(strip_comments_and_normalize_ws("DEFINE   TABLE\n\ta"), "DEFINE TABLE a");
    assert_eq!(
        strip_comments_and_normalize_ws(" -- one\n/* two */\ta /**/ = ' x  y '\u{a0};\n"),
        " a = ' x  y ' ; "
    );
    assert_eq!(strip_comments_and_normalize_ws(""), "");
}

#[test]
fn normalizing_twice_changes_nothing() {
    for sql in ["a  -  - b", "-/**/-c", "/ /* */ *", " 'x  --' --y\n\n z ", "'open  ", "a;b"] {
        let once = strip_comments_and_normalize_ws(sql);
        assert_eq!(strip_comments_and_normalize_ws(&once), once);
        assert_eq!(split_code_words(&once), split_code_words(sql));
    }
}

#[test]
fn code_words_keep_quotes_together_and_set_semicolons_apart() {
    let plain = |text: &str| Word { chars: text.chars().collect(), quoted: false };
    let quoted = |text: &str| Word { chars: text.chars().collect(), quoted: true };
    assert_eq!(
        split_code_words("a;bc 'd e'f--g\n;h"),
        vec![plain("a"), plain(";"), plain("bc"), quoted("'d e'"), plain("f"), plain(";"), plain("h")]
    );
    assert_eq!(
        split_code_words("a `b; c`d `e;"),
        vec![plain("a"), quoted("`b; c`"), plain("d"), plain("`e"), plain(";")]
    );
    assert_eq!(split_code_words(" \n--x"), vec![]);
}

#[test]
fn statements_rejoin() {
    for sql in [
        "a; b {c;}; 'd;' -- e;\n; ;f",
        "}; a; {; b; c = 'open \\ ",
        "a---b\n-c; d / e * f",
        "",
        " ; ",
    ] {
        let stmts = split_statements(sql);
        assert_eq!(split_statements(&stmts.join(";")), stmts);
        for s in &stmts {
            assert_eq!(split_statements(s), vec![s.clone()]);
        }
    }
}

#[test]
fn a_removed_block_comment_may_leave_another_behind() {
    let stmts = split_statements("a //**/* b");
    assert_eq!(stmts, vec!["a /* b"]);
    assert_eq!(split_statements(&stmts.join(";")), vec!["a"]);
}

#[test]
fn an_unterminated_statement_is_found() {
    assert_eq!(unterminated_statement("a; b -- c"), Some("b".to_string()));
    assert_eq!(unterminated_statement("a; { b; }"), Some("{ b; }".to_string()));
    assert_eq!(unterminated_statement("a"), Some("a".to_string()));
    assert_eq!(unterminated_statement("a; b; -- c"), None);
    assert_eq!(unterminated_statement(""), None);
}

#[test]
fn text_beyond_ascii_passes_through() {
    assert_eq!(split_statements("\u{e9} = '\u{1f600};'; \u{4e2d}"), vec!["\u{e9} = '\u{1f600};'", "\u{4e2d}"]);
    assert_eq!(strip_comments_and_normalize_ws("\u{e9}--\u{1f600}"), "\u{e9} ");
}
