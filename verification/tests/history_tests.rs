use gitsync::history::{
    commit_time, copy_commit, date_prefix, filter_commits, generate_changelog, make_commit,
    paginate, record_commit, record_graph_commit, search_commits, stash_message, text_less_exec,
    Commit, GraphCommit, COMMIT_LIST_LIMIT,
};

fn commit(hash: &str, author: &str, time: &str, message: &str) -> Commit {
    Commit {
        hash: hash.to_string(),
        author: author.to_string(),
        time: time.to_string(),
        message: message.to_string(),
    }
}

#[test]
fn commit_times_are_formatted_in_utc() {
    assert_eq!(commit_time(1_700_000_000), "2023-11-14 22:13:20");
    assert_eq!(commit_time(0), "1970-01-01 00:00:00");
    assert_eq!(commit_time(10_000_000_000_000), "未知时间");
}

#[test]
fn commit_records_fill_in_defaults() {
    let c = make_commit("h".to_string(), None, None, 0);
    assert_eq!(c.author, "未知");
    assert_eq!(c.message, "");
    assert_eq!(c.time, "1970-01-01 00:00:00");
    let d = copy_commit(&c);
    assert_eq!((d.hash, d.author, d.time, d.message), (c.hash, c.author, c.time, c.message));
}

#[test]
fn search_ignores_case_and_keeps_order() {
    let all = vec![
        commit("1", "Alice", "t", "Fix bug"),
        commit("2", "Bob", "t", "add feature"),
        commit("3", "FIXER", "t", "docs"),
    ];
    let found = search_commits(&all, "fix");
    let hashes: Vec<&str> = found.iter().map(|c| c.hash.as_str()).collect();
    assert_eq!(hashes, vec!["1", "3"]);
    assert_eq!(search_commits(&all, "").len(), 3);
}

#[test]
fn search_returns_at_most_fifty() {
    let all: Vec<Commit> = (0..80).map(|i| commit(&i.to_string(), "a", "t", "fix")).collect();
    let found = search_commits(&all, "FIX");
    assert_eq!(found.len(), 50);
    assert_eq!(found[49].hash, "49");
}

#[test]
fn filter_by_author_and_date_range() {
    let all = vec![
        commit("1", "Alice", "2024-01-05 10:00:00", "a"),
        commit("2", "Bob", "2024-02-01 10:00:00", "b"),
        commit("3", "alice b", "2023-12-31 23:59:59", "c"),
    ];
    let r = filter_commits(&all, Some("ALICE".to_string()), None, None);
    assert_eq!(r.iter().map(|c| c.hash.as_str()).collect::<Vec<_>>(), vec!["1", "3"]);
    let r = filter_commits(&all, None, Some("2024-01-01".to_string()), Some("2024-01-31".to_string()));
    assert_eq!(r.iter().map(|c| c.hash.as_str()).collect::<Vec<_>>(), vec!["1"]);
    assert_eq!(filter_commits(&all, None, None, None).len(), 3);
}

#[test]
fn text_order_is_string_order() {
    let a: Vec<char> = "abc".chars().collect();
    let b: Vec<char> = "abd".chars().collect();
    let p: Vec<char> = "ab".chars().collect();
    assert!(text_less_exec(&a, &b));
    assert!(!text_less_exec(&b, &a));
    assert!(text_less_exec(&p, &a));
    assert!(!text_less_exec(&a, &a));
}

#[test]
fn pages_of_the_history() {
    let all: Vec<Commit> = (0..5).map(|i| commit(&i.to_string(), "a", "t", "m")).collect();
    let (page, total) = paginate(&all, 1, 2);
    assert_eq!(total, 5);
    assert_eq!(page.iter().map(|c| c.hash.as_str()).collect::<Vec<_>>(), vec!["2", "3"]);
    let (page, total) = paginate(&all, 2, 2);
    assert_eq!((page.len(), total), (1, 5));
    let (page, total) = paginate(&all, 3, 2);
    assert_eq!((page.len(), total), (0, 5));
}

#[test]
fn date_prefix_is_ten_bytes_on_a_boundary() {
    let t: Vec<char> = "2024-01-05 10:00:00".chars().collect();
    assert_eq!(date_prefix(&t).iter().collect::<String>(), "2024-01-05");
    let u: Vec<char> = "未知时间".chars().collect();
    assert_eq!(date_prefix(&u).iter().collect::<String>(), "未知时间");
    let short: Vec<char> = "2024".chars().collect();
    assert_eq!(date_prefix(&short).iter().collect::<String>(), "2024");
}

#[test]
fn changelog_groups_consecutive_days() {
    let all = vec![
        commit("1", "a", "2024-01-05 10:00:00", "m1"),
        commit("2", "a", "2024-01-05 09:00:00", "m2"),
        commit("3", "a", "2024-01-04 09:00:00", "m3"),
        commit("4", "a", "2024-01-03 09:00:00", "m4"),
    ];
    let entries = generate_changelog(&all, 3);
    assert_eq!(entries.len(), 2);
    assert_eq!(entries[0].version, "2024-01-05");
    assert_eq!(entries[0].date, "2024-01-05");
    assert_eq!(entries[0].messages, vec!["m1".to_string(), "m2".to_string()]);
    assert_eq!(entries[1].messages, vec!["m3".to_string()]);
    assert!(generate_changelog(&all, 0).is_empty());
}

#[test]
fn changelog_with_unparseable_time_does_not_panic() {
    let c = make_commit("x".to_string(), Some("bob".to_string()), Some("weird time\n".to_string()), 10_000_000_000_000);
    let entries = generate_changelog(&vec![c], 5);
    assert_eq!(entries.len(), 1);
    assert_eq!(entries[0].version, "未知时间");
}

#[test]
fn commit_lists_stop_at_their_limit() {
    let mut list: Vec<Commit> = Vec::new();
    for i in 0..(COMMIT_LIST_LIMIT - 1) {
        assert!(!record_commit(&mut list, COMMIT_LIST_LIMIT, i.to_string(), None, None, 0));
    }
    assert!(record_commit(&mut list, COMMIT_LIST_LIMIT, "last".to_string(), Some("a".to_string()), None, 0));
    assert_eq!(list.len(), 100);
    assert_eq!(list[99].hash, "last");
    assert_eq!(list[0].author, "未知");

    let mut graph: Vec<GraphCommit> = Vec::new();
    let full = record_graph_commit(&mut graph, "g".to_string(), None, Some("m".to_string()), 0, vec!["p".to_string()]);
    assert!(!full);
    assert_eq!(graph[0].commit.message, "m");
    assert_eq!(graph[0].parent_hashes, vec!["p".to_string()]);
}

#[test]
fn stash_messages() {
    assert_eq!(stash_message(Some("wip".to_string())), "wip");
    assert!(stash_message(None).starts_with("Stash "));
}
