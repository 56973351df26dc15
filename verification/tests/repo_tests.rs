use gitsync::repo::{
    plan_checkout, resolve_switch_target, select_branches, snapshot_commit_index, snapshot_file,
    visible_hooks, worktree_blocks_rebase,
};

fn strings(ps: &[&str]) -> Vec<String> {
    ps.iter().map(|p| p.to_string()).collect()
}

#[test]
fn branch_list_puts_head_first_and_hides_head_refs() {
    let names = vec![
        Some("dev".to_string()),
        Some("main".to_string()),
        Some("origin/HEAD".to_string()),
        Some("HEAD".to_string()),
        None,
    ];
    let bs = select_branches(&names, &Some("main".to_string()));
    let got: Vec<(String, bool)> = bs.iter().map(|b| (b.name.clone(), b.is_head)).collect();
    assert_eq!(
        got,
        vec![
            ("main".to_string(), true),
            ("dev".to_string(), false),
            ("未知".to_string(), false),
        ]
    );
}

#[test]
fn switch_targets() {
    let locals = strings(&["main", "dev"]);
    let remotes = strings(&["origin"]);
    assert_eq!(resolve_switch_target("dev", &locals, &remotes), ("dev".to_string(), false));
    assert_eq!(resolve_switch_target("origin/feat", &locals, &remotes), ("feat".to_string(), true));
    assert_eq!(resolve_switch_target("origin/main", &locals, &remotes), ("main".to_string(), false));
    assert_eq!(resolve_switch_target("other/x", &locals, &remotes), ("other/x".to_string(), false));
}

#[test]
fn checkout_plans() {
    let locals = strings(&["main"]);
    let remotes = strings(&["origin"]);
    assert!(plan_checkout(&Some("main".to_string()), "main", &locals, &remotes).is_none());
    let p = plan_checkout(&Some("main".to_string()), "origin/feat", &locals, &remotes).unwrap();
    assert_eq!((p.target.as_str(), p.track, p.head_ref.as_str()), ("feat", true, "refs/heads/feat"));
    let p = plan_checkout(&None, "main", &locals, &remotes).unwrap();
    assert_eq!((p.target.as_str(), p.track, p.head_ref.as_str()), ("main", false, "refs/heads/main"));
}

#[test]
fn rebase_needs_a_clean_worktree() {
    assert!(!worktree_blocks_rebase(&vec![]));
    assert!(!worktree_blocks_rebase(&vec![1 << 7, 1 << 14]));
    assert!(worktree_blocks_rebase(&vec![1 << 7, 1 << 8]));
    assert!(worktree_blocks_rebase(&vec![1 << 0]));
    assert!(worktree_blocks_rebase(&vec![1 << 15]));
}

#[test]
fn time_machine_picks_first_commit_at_or_before() {
    let times = vec![300, 200, 100];
    assert_eq!(snapshot_commit_index(&times, 250), Some(1));
    assert_eq!(snapshot_commit_index(&times, 300), Some(0));
    assert_eq!(snapshot_commit_index(&times, 50), None);
    let f = snapshot_file(None, false, Some(12));
    assert_eq!((f.path.as_str(), f.size, f.is_directory), ("未知", 12, false));
    let d = snapshot_file(Some("src".to_string()), true, Some(12));
    assert_eq!((d.path.as_str(), d.size, d.is_directory), ("src", 0, true));
    assert_eq!(snapshot_file(Some("x".to_string()), false, None).size, 0);
}

#[test]
fn sample_hooks_are_hidden() {
    let hooks = visible_hooks(&strings(&["pre-commit.sample", "pre-commit", "commit-msg"]));
    assert_eq!(hooks, strings(&["pre-commit", "commit-msg"]));
}

#[test]
fn snapshot_lists_one_entry_per_tree_entry() {
    let entries = vec![
        gitsync::repo::TreeEntryFacts { name: Some("src".to_string()), is_directory: true, blob_size: Some(9) },
        gitsync::repo::TreeEntryFacts { name: Some("a.txt".to_string()), is_directory: false, blob_size: Some(12) },
        gitsync::repo::TreeEntryFacts { name: None, is_directory: false, blob_size: None },
    ];
    let files = gitsync::repo::snapshot_files(&entries);
    assert_eq!(files.len(), 3);
    assert_eq!((files[0].path.as_str(), files[0].size, files[0].is_directory), ("src", 0, true));
    assert_eq!((files[1].path.as_str(), files[1].size, files[1].is_directory), ("a.txt", 12, false));
    assert_eq!((files[2].path.as_str(), files[2].size), ("未知", 0));
}

#[test]
fn snapshot_picks_the_first_commit_at_or_before_the_moment() {
    let times = vec![300, 200, 100];
    assert_eq!(gitsync::repo::snapshot_commit_index(&times, 250), Some(1));
    assert_eq!(gitsync::repo::snapshot_commit_index(&times, 50), None);
    assert_eq!(gitsync::repo::snapshot_commit_index(&times, 300), Some(0));
}

#[test]
fn a_commit_is_shown_when_made_at_or_before_the_moment() {
    assert!(gitsync::repo::shown_at(100, 100));
    assert!(gitsync::repo::shown_at(99, 100));
    assert!(!gitsync::repo::shown_at(101, 100));
}

#[test]
fn snapshot_joins_the_record_and_the_tree() {
    let entries = vec![gitsync::repo::TreeEntryFacts { name: Some("f".to_string()), is_directory: false, blob_size: Some(3) }];
    let s = gitsync::repo::snapshot("h".to_string(), Some("ann".to_string()), None, 0, &entries);
    assert_eq!((s.commit.hash.as_str(), s.commit.author.as_str(), s.commit.message.as_str()), ("h", "ann", ""));
    assert_eq!(s.files.len(), 1);
    assert_eq!((s.files[0].path.as_str(), s.files[0].size), ("f", 3));
}
