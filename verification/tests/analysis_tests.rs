use gitsync::analysis::{
    contributors, export_report_markdown, health_report, hot_files, line_origin_counts,
    BranchState, CommitAuthorship, Contributor, HealthReport, HotFile, StatusEntry,
};

fn paths(ps: &[&str]) -> Vec<String> {
    ps.iter().map(|p| p.to_string()).collect()
}

#[test]
fn hot_files_count_changes_most_first() {
    let commits = vec![
        paths(&["a.rs", "b.rs"]),
        paths(&["b.rs"]),
        paths(&["c.rs", "b.rs", "a.rs"]),
    ];
    let hot = hot_files(&commits);
    let got: Vec<(String, usize)> = hot.iter().map(|h| (h.path.clone(), h.changes)).collect();
    assert_eq!(
        got,
        vec![("b.rs".to_string(), 3), ("a.rs".to_string(), 2), ("c.rs".to_string(), 1)]
    );
    assert!(hot_files(&Vec::new()).is_empty());
}

#[test]
fn hot_files_keep_twenty() {
    let commits: Vec<Vec<String>> = (0..30).map(|i| vec![format!("f{}", i)]).collect();
    let hot = hot_files(&commits);
    assert_eq!(hot.len(), 20);
    assert!(hot.iter().all(|h| h.changes == 1));
    // Equal counts keep the order in which the files first appear.
    assert_eq!(hot[0].path, "f0");
    assert_eq!(hot[19].path, "f19");
}

#[test]
fn hot_files_look_at_five_hundred_commits() {
    let mut commits: Vec<Vec<String>> = (0..500).map(|_| vec!["old".to_string()]).collect();
    commits.push(vec!["late".to_string()]);
    let hot = hot_files(&commits);
    assert_eq!(hot.len(), 1);
    assert_eq!((hot[0].path.as_str(), hot[0].changes), ("old", 500));
}

#[test]
fn line_origins_are_counted() {
    assert_eq!(line_origin_counts(&vec!['+', '-', ' ', '+', 'H']), (2, 1));
    assert_eq!(line_origin_counts(&Vec::new()), (0, 0));
}

fn authorship(author: Option<&str>, email: Option<&str>, additions: usize, deletions: usize) -> CommitAuthorship {
    CommitAuthorship {
        author: author.map(|a| a.to_string()),
        email: email.map(|e| e.to_string()),
        additions,
        deletions,
    }
}

#[test]
fn contributors_are_summed_per_author() {
    let commits = vec![
        authorship(Some("bob"), Some("bob@x"), 1, 2),
        authorship(Some("ann"), Some("ann@x"), 10, 0),
        authorship(Some("bob"), Some("bob@other"), 3, 4),
        authorship(None, None, 5, 5),
    ];
    let cs = contributors(&commits);
    assert_eq!(cs.len(), 3);
    assert_eq!(cs[0].author, "bob");
    assert_eq!(cs[0].email, "bob@x");
    assert_eq!((cs[0].commits, cs[0].additions, cs[0].deletions), (2, 4, 6));
    assert_eq!(cs[1].author, "ann");
    assert_eq!(cs[1].commits, 1);
    assert_eq!(cs[2].author, "未知");
    assert_eq!(cs[2].email, "");
    assert_eq!(cs.iter().map(|c| c.commits).sum::<usize>(), 4);
}

#[test]
fn contributors_count_five_hundred_commits() {
    let commits: Vec<CommitAuthorship> = (0..600).map(|_| authorship(Some("a"), None, 1, 0)).collect();
    let cs = contributors(&commits);
    assert_eq!(cs.len(), 1);
    assert_eq!((cs[0].commits, cs[0].additions), (500, 500));
}

#[test]
fn health_report_flags_large_conflicted_and_stale() {
    let statuses = vec![
        StatusEntry { path: Some("big.bin".to_string()), status_bits: 1 << 8, blob_size: Some(2 * 1024 * 1024) },
        StatusEntry { path: Some("exact.bin".to_string()), status_bits: 1 << 8, blob_size: Some(1024 * 1024) },
        StatusEntry { path: Some("c.txt".to_string()), status_bits: 1 << 15, blob_size: None },
        StatusEntry { path: None, status_bits: (1 << 15) | (1 << 8), blob_size: Some(5_000_000) },
    ];
    let branches = vec![
        BranchState { name: Some("main".to_string()), has_upstream: true },
        BranchState { name: Some("topic".to_string()), has_upstream: false },
        BranchState { name: None, has_upstream: false },
    ];
    let r = health_report(&statuses, &branches);
    assert_eq!(r.large_files, vec!["big.bin".to_string(), "未知".to_string()]);
    assert_eq!(r.conflicts, vec!["c.txt".to_string()]);
    assert_eq!(r.stale_branches, vec!["topic".to_string(), "未知".to_string()]);
}

#[test]
fn markdown_report_layout() {
    let health = HealthReport {
        large_files: vec!["a".to_string(), "b".to_string()],
        stale_branches: vec![],
        conflicts: vec!["c".to_string()],
    };
    let cs = vec![Contributor {
        author: "ann".to_string(),
        email: "e".to_string(),
        commits: 3,
        additions: 10,
        deletions: 2,
    }];
    let hot = vec![HotFile { path: "x.rs".to_string(), changes: 7 }];
    let md = export_report_markdown(&health, &cs, &hot);
    assert_eq!(
        md,
        "# 仓库分析报告\n\n## 健康报告\n- 大文件: a, b\n- 无上游分支: \n- 冲突文件: c\n\n## 贡献者统计\n- ann: 3 次提交, +10/-2\n\n## 热点文件\n- x.rs: 7 次变更\n"
    );
}
