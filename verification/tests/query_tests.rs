use gitsync::diff::DeltaKind;
use gitsync::sql::{
    authorize, cell_text, change_row, format_sql_error, rewrite_contains, sql_error_message,
    CellValue, SqlAction,
};

#[test]
fn rewrite_contains_keeps_literals_and_escapes_wildcards() {
    assert_eq!(
        rewrite_contains("WHERE m CONTAINS 'fix'"),
        "WHERE m LIKE '%fix%' ESCAPE '\\'"
    );
    assert_eq!(
        rewrite_contains("SELECT 'a CONTAINS b'"),
        "SELECT 'a CONTAINS b'"
    );
    assert!(rewrite_contains("WHERE m CONTAINS 'a%c_'")
        .contains("LIKE '%a\\%c\\_%' ESCAPE '\\'"));
}

#[test]
fn rewrite_contains_is_case_insensitive_and_word_bounded() {
    assert_eq!(
        rewrite_contains("where m contains 'x'"),
        "where m LIKE '%x%' ESCAPE '\\'"
    );
    assert_eq!(rewrite_contains("SELECT mycontains FROM t"), "SELECT mycontains FROM t");
    assert_eq!(rewrite_contains("WHERE m CONTAINS x"), "WHERE m CONTAINS x");
}

#[test]
fn rewrite_contains_escapes_backslash_and_keeps_plain_sql() {
    assert_eq!(
        rewrite_contains("WHERE p CONTAINS 'a\\b'"),
        "WHERE p LIKE '%a\\\\b%' ESCAPE '\\'"
    );
    assert_eq!(
        rewrite_contains("SELECT COUNT(*) FROM commits"),
        "SELECT COUNT(*) FROM commits"
    );
}

#[test]
fn missing_table_error_lists_tables() {
    assert_eq!(
        sql_error_message("no such table: foo"),
        "表不存在，可用表: commits, file_changes（no such table: foo）"
    );
    assert_eq!(sql_error_message("near \"x\": syntax error"), "near \"x\": syntax error");
}

#[test]
fn query_console_is_read_only() {
    assert!(authorize(SqlAction::Select));
    assert!(authorize(SqlAction::Read));
    assert!(authorize(SqlAction::Function));
    assert!(!authorize(SqlAction::Other));
}

#[test]
fn result_cells_are_shown_as_text() {
    assert_eq!(cell_text(&CellValue::Null), "");
    assert_eq!(cell_text(&CellValue::Integer(42)), "42");
    assert_eq!(cell_text(&CellValue::Integer(0)), "0");
    assert_eq!(cell_text(&CellValue::Integer(-7)), "-7");
    assert_eq!(cell_text(&CellValue::Integer(i64::MIN)), "-9223372036854775808");
    assert_eq!(cell_text(&CellValue::Integer(i64::MAX)), "9223372036854775807");
    assert_eq!(cell_text(&CellValue::Text(b"abc".to_vec())), "abc");
    assert_eq!(cell_text(&CellValue::Blob(vec![0x61, 0xff])), "a\u{fffd}");
}

#[test]
fn file_change_rows_count_their_own_patch() {
    let row = change_row(
        &"abc".to_string(),
        Some("src/a.rs".to_string()),
        &DeltaKind::Modified,
        &Some(vec!['F', 'H', '+', '+', '-', ' ']),
    );
    assert_eq!(row.commit_hash, "abc");
    assert_eq!(row.file_path, "src/a.rs");
    assert_eq!(row.status, "M");
    assert_eq!(row.additions, 2);
    assert_eq!(row.deletions, 1);

    let row = change_row(&"abc".to_string(), None, &DeltaKind::Other, &None);
    assert_eq!(row.file_path, "");
    assert_eq!(row.status, "?");
    assert_eq!((row.additions, row.deletions), (0, 0));
}

#[test]
fn sqlite_errors_are_shown_with_the_table_hint() {
    let missing = rusqlite::Error::SqliteFailure(
        rusqlite::ffi::Error::new(1),
        Some("no such table: foo".to_string()),
    );
    assert_eq!(
        format_sql_error(&missing),
        "表不存在，可用表: commits, file_changes（no such table: foo）"
    );
    assert_eq!(
        format_sql_error(&rusqlite::Error::QueryReturnedNoRows),
        rusqlite::Error::QueryReturnedNoRows.to_string()
    );
}

#[test]
fn rewrite_contains_reads_unicode_words_and_spaces() {
    assert_eq!(rewrite_contains("SELECT éCONTAINS 'x'"), "SELECT éCONTAINS 'x'");
    assert_eq!(
        rewrite_contains("WHERE m\tCONTAINS\u{3000}'y'"),
        "WHERE m\tLIKE '%y%' ESCAPE '\\'"
    );
    assert_eq!(
        rewrite_contains("WHERE a CONTAINS 'it''s'"),
        "WHERE a LIKE '%it%' ESCAPE '\\''s'"
    );
}

#[test]
fn contains_inside_a_longer_word_or_a_literal_is_kept() {
    let sql = "WHERE x_contains 'a' AND c = 'CONTAINS'";
    assert_eq!(rewrite_contains(sql), sql);
}

#[test]
fn every_contains_is_rewritten_and_its_spacing_dropped() {
    assert_eq!(
        rewrite_contains("a CONTAINS\n 'x' OR b contains 'y'"),
        r"a LIKE '%x%' ESCAPE '\' OR b LIKE '%y%' ESCAPE '\'"
    );
}

#[test]
fn recorded_commits_bring_their_file_rows() {
    use_record();
}

fn use_record() {
    let mut commits = Vec::new();
    let mut files = Vec::new();
    let changed = vec![
        gitsync::sql::ChangedFile { path: Some("a.txt".to_string()), kind: DeltaKind::Modified, origins: Some(vec!['F', 'H', '+', '-', '+']) },
        gitsync::sql::ChangedFile { path: None, kind: DeltaKind::Added, origins: None },
    ];
    let full = gitsync::sql::record_query_commit(&mut commits, &mut files, 2, "h1".to_string(), None, Some("m".to_string()), 0, &changed);
    assert!(!full);
    assert_eq!(commits.len(), 1);
    assert_eq!(commits[0].author, "未知");
    assert_eq!(files.len(), 2);
    assert_eq!((files[0].commit_hash.as_str(), files[0].file_path.as_str(), files[0].status.as_str()), ("h1", "a.txt", "M"));
    assert_eq!((files[0].additions, files[0].deletions), (2, 1));
    assert_eq!((files[1].file_path.as_str(), files[1].additions, files[1].deletions), ("", 0, 0));
    let full = gitsync::sql::record_query_commit(&mut commits, &mut files, 2, "h2".to_string(), Some("bo".to_string()), None, 0, &Vec::new());
    assert!(full);
    assert_eq!(files.len(), 2);
}

#[test]
fn contains_inside_a_literal_before_another_literal_is_kept() {
    let sql = "WHERE a = 'see contains ''x'' here'";
    assert_eq!(rewrite_contains(sql), sql);
}
