use gitsync::search::{
    add_timeline_entry, comparison_text, matching_delta, search_commit, SearchCommit, SearchFile,
    SearchResult, TimelineEntry,
};

fn search_file(path: Option<&str>, lines: Option<Vec<&str>>) -> SearchFile {
    SearchFile {
        path: path.map(|p| p.to_string()),
        lines: lines.map(|ls| ls.iter().map(|l| l.as_bytes().to_vec()).collect()),
    }
}

#[test]
fn matching_lines_are_numbered_per_file() {
    let commit = SearchCommit {
        hash: "h1".to_string(),
        author: None,
        files: vec![
            search_file(Some("a.rs"), Some(vec!["fn Foo()", "bar", "foo again"])),
            search_file(None, Some(vec!["FOO"])),
            search_file(Some("skip"), None),
        ],
    };
    let mut results: Vec<SearchResult> = Vec::new();
    let stop = search_commit(&mut results, &"foo".to_string(), &commit);
    assert!(!stop);
    let got: Vec<(&str, &str, &str, &str, usize, &str)> = results
        .iter()
        .map(|r| (r.commit_hash.as_str(), r.author.as_str(), r.time.as_str(), r.file_path.as_str(), r.line_number, r.content.as_str()))
        .collect();
    assert_eq!(
        got,
        vec![
            ("h1", "未知", "", "a.rs", 1, "fn Foo()"),
            ("h1", "未知", "", "a.rs", 2, "foo again"),
            ("h1", "未知", "", "", 1, "FOO"),
        ]
    );
}

#[test]
fn search_stops_at_two_hundred_results() {
    let lines: Vec<&str> = (0..199).map(|_| "x").collect();
    let commit = SearchCommit {
        hash: "h".to_string(),
        author: Some("a".to_string()),
        files: vec![search_file(Some("f"), Some(lines))],
    };
    let mut results: Vec<SearchResult> = Vec::new();
    assert!(!search_commit(&mut results, &"x".to_string(), &commit));
    let one = SearchCommit {
        hash: "h2".to_string(),
        author: Some("a".to_string()),
        files: vec![search_file(Some("g"), Some(vec!["x", "x"]))],
    };
    assert!(search_commit(&mut results, &"X".to_string(), &one));
    assert_eq!(results.len(), 201);
}

#[test]
fn timeline_follows_one_path() {
    let paths = vec![Some("a".to_string()), None, Some("b".to_string()), Some("b".to_string())];
    assert_eq!(matching_delta(&paths, &"b".to_string()), Some(2));
    assert_eq!(matching_delta(&paths, &"".to_string()), Some(1));
    assert_eq!(matching_delta(&paths, &"c".to_string()), None);

    let mut entries: Vec<TimelineEntry> = Vec::new();
    let full = add_timeline_entry(
        &mut entries,
        "h".to_string(),
        None,
        Some("msg".to_string()),
        0,
        Some(vec![b"-old\n".to_vec(), b"+new\n".to_vec()]),
    );
    assert!(!full);
    assert_eq!(entries[0].author, "未知");
    assert_eq!(entries[0].time, "1970-01-01 00:00:00");
    assert_eq!(entries[0].message, "msg");
    assert_eq!(entries[0].diff, "-old\n+new\n");
    for i in 0..48 {
        assert!(!add_timeline_entry(&mut entries, i.to_string(), None, None, 0, None));
    }
    assert!(add_timeline_entry(&mut entries, "last".to_string(), None, None, 0, None));
    assert_eq!(entries[49].diff, "");
}

#[test]
fn comparison_text_drops_invalid_lines() {
    let lines = vec![b"a\n".to_vec(), vec![0xff, b'\n'], b"c\n".to_vec()];
    assert_eq!(comparison_text(&lines), "a\nc\n");
}
