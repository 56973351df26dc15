use gitsync::diff::DeltaKind;
use gitsync::history::{make_commit, Commit};
use gitsync::query::run_query;
use gitsync::sql::{change_row, CellValue, FileChangeRow};

const H1: &str = "1111111111111111111111111111111111111111";
const H2: &str = "2222222222222222222222222222222222222222";

/// Two commits by alice, each touching a.txt and b.txt with one added line
/// per file: the first adds both files, the second appends a line to each.
fn data() -> (Vec<Commit>, Vec<FileChangeRow>) {
    let commits = vec![
        make_commit(H2.to_string(), Some("alice".to_string()), Some("Add lines".to_string()), 1_700_000_100),
        make_commit(H1.to_string(), Some("alice".to_string()), Some("Base commit".to_string()), 1_700_000_000),
    ];
    let origins = Some(vec!['F', 'H', ' ', '+']);
    let added = Some(vec!['F', 'H', '+']);
    let files = vec![
        change_row(&H2.to_string(), Some("a.txt".to_string()), &DeltaKind::Modified, &origins),
        change_row(&H2.to_string(), Some("b.txt".to_string()), &DeltaKind::Modified, &origins),
        change_row(&H1.to_string(), Some("a.txt".to_string()), &DeltaKind::Added, &added),
        change_row(&H1.to_string(), Some("b.txt".to_string()), &DeltaKind::Added, &added),
    ];
    (commits, files)
}

fn query(sql: &str) -> Result<Vec<Vec<String>>, String> {
    let (commits, files) = data();
    run_query(&commits, &files, sql).map(|t| t.rows)
}

#[test]
fn file_changes_table_is_queryable() {
    let rows = query("SELECT COUNT(*) FROM file_changes").unwrap();
    assert_eq!(rows, vec![vec!["4".to_string()]]);
}

#[test]
fn per_file_stats_are_not_whole_commit_totals() {
    let rows = query(&format!(
        "SELECT file_path, additions, deletions FROM file_changes WHERE commit_hash = '{}' ORDER BY file_path",
        H2
    ))
    .unwrap();
    assert_eq!(
        rows,
        vec![
            vec!["a.txt".to_string(), "1".to_string(), "0".to_string()],
            vec!["b.txt".to_string(), "1".to_string(), "0".to_string()],
        ]
    );
}

#[test]
fn contains_keyword_and_case_insensitive_eq() {
    let rows = query("SELECT COUNT(*) FROM commits WHERE message CONTAINS 'base'").unwrap();
    assert_eq!(rows, vec![vec!["1".to_string()]]);
    let rows = query("SELECT COUNT(*) FROM commits WHERE author = 'ALICE'").unwrap();
    assert_eq!(rows, vec![vec!["2".to_string()]]);
}

#[test]
fn aggregates_and_join() {
    let rows = query("SELECT author, COUNT(*) AS cnt FROM commits GROUP BY author").unwrap();
    assert_eq!(rows, vec![vec!["alice".to_string(), "2".to_string()]]);
    let rows = query("SELECT COUNT(*) FROM commits JOIN file_changes ON commits.hash = file_changes.commit_hash").unwrap();
    assert_eq!(rows, vec![vec!["4".to_string()]]);
    let rows = query("SELECT SUM(additions) FROM file_changes").unwrap();
    assert_eq!(rows, vec![vec!["4".to_string()]]);
}

#[test]
fn numeric_where_comparison() {
    let rows = query("SELECT COUNT(*) FROM file_changes WHERE additions > 1").unwrap();
    assert_eq!(rows, vec![vec!["0".to_string()]]);
    let rows = query("SELECT COUNT(*) FROM file_changes WHERE additions > 0").unwrap();
    assert_eq!(rows, vec![vec!["4".to_string()]]);
}

#[test]
fn limit_with_trailing_semicolon() {
    let rows = query("SELECT hash FROM commits LIMIT 1;").unwrap();
    assert_eq!(rows.len(), 1);
}

#[test]
fn malformed_sql_returns_error_instead_of_panicking() {
    assert!(query("SELECT hash WHERE message CONTAINS 'x FROM y'").is_err());
    assert!(query("FROM commits SELECT hash").is_err());
    assert!(query("SELECT * FROM commits ORDER BY hash WHERE author = 'a'").is_err());
    let rows = query("SELECT COUNT(*) FROM commits WHERE message CONTAINS 'select from where'").unwrap();
    assert_eq!(rows, vec![vec!["0".to_string()]]);
}

#[test]
fn writes_and_attach_are_rejected() {
    assert!(query("INSERT INTO commits VALUES ('x','y','z','w')").is_err());
    assert!(query("DELETE FROM commits").is_err());
    assert!(query("ATTACH DATABASE '/tmp/gitsync-test.db' AS x").is_err());
}

#[test]
fn unknown_table_error_mentions_available_tables() {
    let err = query("SELECT * FROM nosuch").unwrap_err();
    assert!(err.contains("commits, file_changes"), "err: {}", err);
}

#[test]
fn query_cells_show_every_type() {
    let (commits, files) = data();
    let table = run_query(&commits, &files, "SELECT NULL, 1.5, -3, 'é', x'6162', time FROM commits LIMIT 1").unwrap();
    assert_eq!(table.columns.len(), 6);
    assert_eq!(
        table.rows,
        vec![vec![
            "".to_string(),
            "1.5".to_string(),
            "-3".to_string(),
            "é".to_string(),
            "ab".to_string(),
            "2023-11-14 22:15:00".to_string(),
        ]]
    );
}

fn param_text(p: &gitsync::query::SqlParam) -> Option<String> {
    match p {
        gitsync::query::SqlParam::Text(t) => Some(t.clone()),
        gitsync::query::SqlParam::Integer(_) => None,
    }
}

fn param_int(p: &gitsync::query::SqlParam) -> Option<i64> {
    match p {
        gitsync::query::SqlParam::Text(_) => None,
        gitsync::query::SqlParam::Integer(n) => Some(*n),
    }
}

#[test]
fn commit_params_follow_the_column_order() {
    let c = make_commit(H1.to_string(), Some("alice".to_string()), Some("Base commit".to_string()), 0);
    let p = gitsync::query::commit_params(&c);
    let texts: Vec<Option<String>> = p.iter().map(param_text).collect();
    assert_eq!(
        texts,
        vec![Some(c.hash.clone()), Some("alice".to_string()), Some(c.time.clone()), Some("Base commit".to_string())]
    );
}

#[test]
fn file_params_bind_the_counts_as_integers() {
    let f = FileChangeRow {
        commit_hash: H2.to_string(),
        file_path: "src/a.rs".to_string(),
        status: "M".to_string(),
        additions: 7,
        deletions: usize::MAX,
    };
    let p = gitsync::query::file_params(&f);
    assert_eq!(p.len(), 5);
    assert_eq!(param_text(&p[0]), Some(H2.to_string()));
    assert_eq!(param_text(&p[1]), Some("src/a.rs".to_string()));
    assert_eq!(param_text(&p[2]), Some("M".to_string()));
    assert_eq!(param_int(&p[3]), Some(7));
    assert_eq!(param_int(&p[4]), Some(usize::MAX as i64));
}

#[test]
fn row_texts_shows_each_cell_in_order() {
    let cells = vec![
        CellValue::Null,
        CellValue::Integer(-42),
        CellValue::Real("2.5".to_string()),
        CellValue::Text(b"a.txt".to_vec()),
        CellValue::Blob(vec![0x68, 0x69]),
    ];
    let texts = gitsync::query::row_texts(&cells);
    assert_eq!(
        texts,
        vec!["".to_string(), "-42".to_string(), "2.5".to_string(), "a.txt".to_string(), "hi".to_string()]
    );
}
