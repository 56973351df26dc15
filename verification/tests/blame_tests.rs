use gitsync::blame::{blame_lines, BlameHunk, BlameSignature};

#[test]
fn blame_lines_follow_the_hunks() {
    let content = b"one\ntwo\r\nthree".to_vec();
    let hunks = vec![
        BlameHunk {
            commit_hash: "aaa".to_string(),
            signature: Some(BlameSignature { name: Some("ann".to_string()), seconds: 0 }),
            start_line: 1,
            lines: 2,
        },
        BlameHunk {
            commit_hash: "bbb".to_string(),
            signature: None,
            start_line: 3,
            lines: 2,
        },
    ];
    let lines = blame_lines(&content, &hunks);
    let got: Vec<(usize, &str, &str, &str, &str)> = lines
        .iter()
        .map(|l| (l.line_number, l.commit_hash.as_str(), l.author.as_str(), l.time.as_str(), l.content.as_str()))
        .collect();
    assert_eq!(
        got,
        vec![
            (1, "aaa", "ann", "1970-01-01 00:00:00", "one"),
            (2, "aaa", "ann", "1970-01-01 00:00:00", "two"),
            (3, "bbb", "未知", "未知时间", "three"),
            (4, "bbb", "未知", "未知时间", ""),
        ]
    );
}

#[test]
fn blame_of_binary_file_has_empty_lines() {
    let hunks = vec![BlameHunk {
        commit_hash: "c".to_string(),
        signature: Some(BlameSignature { name: None, seconds: 10_000_000_000_000 }),
        start_line: 0,
        lines: 1,
    }];
    let lines = blame_lines(&vec![0xff, 0xfe], &hunks);
    assert_eq!(lines.len(), 1);
    assert_eq!(lines[0].line_number, 0);
    assert_eq!(lines[0].author, "未知");
    assert_eq!(lines[0].time, "未知时间");
    assert_eq!(lines[0].content, "");
}
