use gitsync::diff::{
    compute_inline_changes, count_changed_lines, delta_status, file_change, group_diff_lines,
    parse_hunk_header, patch_text_bytes, DeltaKind, PatchEvent, PrintedLine,
};

#[test]
fn hunk_header_numbers() {
    // The old range is read from the first whitespace-separated token with
    // its leading "@@" removed: for "@@ -1,3 ..." that token is "@@" alone,
    // which reads as start 0 with the default count 1.
    assert_eq!(parse_hunk_header("@@ -1,3 +1,4 @@"), (0, 1, 1, 4));
    assert_eq!(parse_hunk_header("@@-5,2 +7 @@ x"), (5, 2, 0, 1));
    assert_eq!(parse_hunk_header("bad"), (0, 0, 0, 0));
    assert_eq!(parse_hunk_header(""), (0, 0, 0, 0));
}

#[test]
fn inline_changes_mark_added_and_removed_words() {
    let added = compute_inline_changes("", "abc");
    assert_eq!(added.len(), 1);
    assert_eq!((added[0].offset, added[0].length, added[0].kind.as_str()), (0, 3, "insert"));

    let removed = compute_inline_changes("abc", "");
    assert_eq!(removed.len(), 1);
    assert_eq!((removed[0].offset, removed[0].length, removed[0].kind.as_str()), (0, 3, "delete"));

    let changed = compute_inline_changes("a b", "a c");
    let got: Vec<(usize, usize, String)> =
        changed.iter().map(|c| (c.offset, c.length, c.kind.clone())).collect();
    assert_eq!(got, vec![(2, 1, "delete".to_string()), (2, 1, "insert".to_string())]);

    assert!(compute_inline_changes("same", "same").is_empty());
}

#[test]
fn inline_offsets_count_bytes() {
    let changed = compute_inline_changes("", "é");
    assert_eq!((changed[0].offset, changed[0].length), (0, 2));
}

fn event(header: Option<&str>, origin: char, content: &str) -> PatchEvent {
    PatchEvent {
        hunk_header: header.map(|h| h.to_string()),
        origin,
        content: content.to_string(),
    }
}

#[test]
fn diff_lines_are_grouped_by_hunk_header() {
    let h1 = Some("@@ -1,2 +1,2 @@\n");
    let h2 = Some("@@ -9 +9 @@\n");
    let events = vec![
        event(None, 'F', "diff --git a/x b/x\n"),
        event(h1, 'H', "@@ -1,2 +1,2 @@\n"),
        event(h1, ' ', "keep\n"),
        event(h1, '-', "old\n"),
        event(h1, '+', "new\n"),
        event(h2, 'H', "@@ -9 +9 @@\n"),
        event(h2, '+', "tail\n"),
        event(h2, '>', "\n\\ No newline at end of file\n"),
    ];
    let hunks = group_diff_lines(&events);
    assert_eq!(hunks.len(), 3);
    assert_eq!((hunks[0].old_start, hunks[0].new_start), (0, 0));
    assert_eq!(hunks[0].lines.len(), 1);
    assert_eq!(hunks[0].lines[0].origin, "?");
    assert_eq!(hunks[0].lines[0].content, "diff --git a/x b/x\n");
    let h = &hunks[1];
    assert_eq!((h.old_start, h.new_start), (0, 1));
    assert_eq!(h.lines.len(), 3);
    assert_eq!(h.lines[0].origin, " ");
    assert!(h.lines[0].inline_changes.is_empty());
    assert_eq!(h.lines[1].origin, "-");
    assert_eq!(h.lines[1].inline_changes[0].kind, "delete");
    assert_eq!(h.lines[2].origin, "+");
    assert_eq!(h.lines[2].content, "new\n");
    assert_eq!(h.lines[2].inline_changes[0].kind, "insert");
    let t = &hunks[2];
    assert_eq!((t.old_start, t.new_start), (0, 9));
    assert_eq!(t.lines.len(), 2);
    assert_eq!(t.lines[0].content, "tail\n");
    assert_eq!(t.lines[1].origin, "?");
    assert_eq!((t.old_lines, t.new_lines), (0, 0));
}

#[test]
fn one_added_line_lands_in_the_hunk_after_its_header() {
    let h = Some("@@ -0,0 +1 @@\n");
    let events = vec![
        event(None, 'F', "diff --git a/n b/n\n"),
        event(h, 'H', "@@ -0,0 +1 @@\n"),
        event(h, '+', "hello\n"),
    ];
    let hunks = group_diff_lines(&events);
    assert_eq!(hunks.len(), 2);
    assert_eq!(hunks[0].lines[0].origin, "?");
    assert_eq!(hunks[1].lines.len(), 1);
    assert_eq!(hunks[1].lines[0].origin, "+");
    assert_eq!(hunks[1].lines[0].content, "hello\n");
}

#[test]
fn headers_without_lines_make_no_hunk() {
    let events = vec![
        event(Some("@@ -1 +1 @@"), 'H', ""),
        event(Some("@@ -2 +2 @@"), 'H', ""),
    ];
    assert!(group_diff_lines(&events).is_empty());
    assert!(group_diff_lines(&Vec::new()).is_empty());
}

#[test]
fn status_letters() {
    assert_eq!(delta_status(&DeltaKind::Added), "A");
    assert_eq!(delta_status(&DeltaKind::Deleted), "D");
    assert_eq!(delta_status(&DeltaKind::Modified), "M");
    assert_eq!(delta_status(&DeltaKind::Renamed), "R");
    assert_eq!(delta_status(&DeltaKind::Other), "?");
}

fn printed(origin: char, content: &str) -> PrintedLine {
    PrintedLine { origin, content: content.as_bytes().to_vec() }
}

#[test]
fn commit_detail_file_entry() {
    let lines = vec![
        printed('F', "diff --git a/a b/a\n"),
        printed('H', "@@ -1 +1 @@\n"),
        printed('-', "old\n"),
        printed('+', "new\n"),
        printed('+', "more\n"),
    ];
    assert_eq!(count_changed_lines(&lines), (2, 1));
    assert_eq!(
        patch_text_bytes(&lines),
        b"Fdiff --git a/a b/a\nH@@ -1 +1 @@\n-old\n+new\n+more\n".to_vec()
    );
    let fc = file_change(Some("a".to_string()), &DeltaKind::Modified, &Some(lines));
    assert_eq!(fc.path, "a");
    assert_eq!(fc.status, "M");
    assert_eq!((fc.additions, fc.deletions), (2, 1));
    assert_eq!(fc.diff, "Fdiff --git a/a b/a\nH@@ -1 +1 @@\n-old\n+new\n+more\n");

    let none = file_change(None, &DeltaKind::Added, &None);
    assert_eq!(none.path, "未知文件");
    assert_eq!(none.status, "A");
    assert_eq!((none.additions, none.deletions), (0, 0));
    assert_eq!(none.diff, "");
}

#[test]
fn invalid_patch_bytes_are_replaced() {
    let lines = vec![PrintedLine { origin: '+', content: vec![0xff, b'\n'] }];
    let fc = file_change(Some("b".to_string()), &DeltaKind::Added, &Some(lines));
    assert_eq!(fc.diff, "+\u{fffd}\n");
}

#[test]
fn highlights_follow_the_new_line() {
    let changes = compute_inline_changes("a b c", "x b y z");
    let offsets: Vec<usize> = changes.iter().map(|c| c.offset).collect();
    let mut sorted = offsets.clone();
    sorted.sort();
    assert_eq!(offsets, sorted);
    assert!(changes.iter().all(|c| c.kind != "insert" || c.offset + c.length <= "x b y z".len()));
}

#[test]
fn commit_files_has_one_entry_per_change_in_order() {
    let changed = vec![
        gitsync::diff::DeltaPatch {
            path: Some("a".to_string()),
            kind: DeltaKind::Modified,
            patch: Some(vec![printed('-', "old\n"), printed('+', "new\n"), printed('+', "more\n")]),
        },
        gitsync::diff::DeltaPatch { path: None, kind: DeltaKind::Deleted, patch: None },
    ];
    let files = gitsync::diff::commit_files(&changed);
    assert_eq!(files.len(), 2);
    assert_eq!((files[0].path.as_str(), files[0].status.as_str()), ("a", "M"));
    assert_eq!((files[0].additions, files[0].deletions), (2, 1));
    assert_eq!((files[1].path.as_str(), files[1].status.as_str()), ("未知文件", "D"));
    assert_eq!(files[1].diff, "");
}

#[test]
fn commit_detail_joins_the_record_and_the_files() {
    let changed = vec![gitsync::diff::DeltaPatch {
        path: Some("a".to_string()),
        kind: DeltaKind::Added,
        patch: Some(vec![printed('+', "x\n")]),
    }];
    let d = gitsync::diff::commit_detail("abc".to_string(), None, Some("msg".to_string()), 0, &changed);
    assert_eq!(d.commit.hash, "abc");
    assert_eq!(d.commit.author, "未知");
    assert_eq!(d.commit.message, "msg");
    assert_eq!(d.commit.time, "1970-01-01 00:00:00");
    assert_eq!(d.files.len(), 1);
    assert_eq!((d.files[0].status.as_str(), d.files[0].additions), ("A", 1));
}
