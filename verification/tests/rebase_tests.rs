use gitsync::rebase::{plan_rebase, rebase_refusal, OpLookup, RebaseFacts, RebaseStep};

fn step(action: &str, new_message: Option<&str>, message: &str) -> RebaseStep {
    RebaseStep {
        action: action.to_string(),
        new_message: new_message.map(|m| m.to_string()),
        message: Some(message.to_string()),
    }
}

fn groups(plan: &gitsync::rebase::RebasePlan) -> Vec<(Vec<usize>, String)> {
    plan.groups.iter().map(|g| (g.members.clone(), g.message.clone())).collect()
}

#[test]
fn lines_are_replayed_oldest_first() {
    // Newest first: index 0 is the newest commit.
    let steps = vec![step("pick", None, "c3"), step("pick", None, "c2"), step("pick", None, "c1")];
    let plan = plan_rebase(&steps);
    assert!(plan.error.is_none());
    assert_eq!(
        groups(&plan),
        vec![
            (vec![2], "c1".to_string()),
            (vec![1], "c2".to_string()),
            (vec![0], "c3".to_string()),
        ]
    );
}

#[test]
fn squash_folds_into_the_commit_before() {
    let steps = vec![
        step("squash", None, "c3"),
        step("squash", None, "c2"),
        step("reword", Some("first"), "c1"),
    ];
    let plan = plan_rebase(&steps);
    assert!(plan.error.is_none());
    assert_eq!(groups(&plan), vec![(vec![2, 1, 0], "first\n\nc2\n\nc3".to_string())]);
}

#[test]
fn drop_leaves_a_commit_out() {
    let steps = vec![step("pick", None, "c3"), step("drop", None, "c2"), step("edit", None, "c1")];
    let plan = plan_rebase(&steps);
    assert_eq!(groups(&plan), vec![(vec![2], "c1".to_string()), (vec![0], "c3".to_string())]);
}

#[test]
fn reword_without_message_keeps_the_old_one() {
    let steps = vec![step("reword", None, "c1")];
    let plan = plan_rebase(&steps);
    assert_eq!(groups(&plan), vec![(vec![0], "c1".to_string())]);
    let steps = vec![RebaseStep { action: "pick".to_string(), new_message: None, message: None }];
    assert_eq!(groups(&plan_rebase(&steps)), vec![(vec![0], String::new())]);
}

#[test]
fn squash_with_nothing_before_is_refused() {
    let steps = vec![step("pick", None, "c2"), step("squash", None, "c1")];
    let plan = plan_rebase(&steps);
    assert!(plan.groups.is_empty());
    assert_eq!(plan.error.as_deref(), Some("squash 前必须有一个 pick/reword 提交"));

    let steps = vec![step("squash", None, "c3"), step("drop", None, "c2"), step("pick", None, "c1")];
    let plan = plan_rebase(&steps);
    assert_eq!(groups(&plan), vec![(vec![2], "c1".to_string())]);
    assert_eq!(plan.error.as_deref(), Some("squash 前必须有一个 pick/reword 提交"));
}

#[test]
fn empty_rebase_is_refused() {
    let plan = plan_rebase(&Vec::new());
    assert!(plan.groups.is_empty());
    assert_eq!(plan.error.as_deref(), Some("没有需要 rebase 的提交"));
}

fn ready(lookups: Vec<OpLookup>) -> RebaseFacts {
    RebaseFacts {
        clean: true,
        head: Ok(true),
        dirty: Ok(false),
        head_commit: Ok(()),
        chain_len: 3,
        merge_in_window: false,
        lookups,
    }
}

#[test]
fn rebase_goes_ahead_when_every_check_passes() {
    assert_eq!(rebase_refusal(&ready(vec![OpLookup::Inside, OpLookup::Inside])), None);
}

#[test]
fn rebase_refusals_come_in_check_order() {
    let mut f = ready(vec![OpLookup::Outside("abc".to_string())]);
    f.clean = false;
    f.head = Ok(false);
    assert_eq!(rebase_refusal(&f).unwrap(), "仓库存在未完成的操作（合并/拣选等），无法 rebase");
    f.clean = true;
    assert_eq!(rebase_refusal(&f).unwrap(), "当前处于游离 HEAD 状态，无法 rebase");
    f.head = Err("无法读取 HEAD: x".to_string());
    assert_eq!(rebase_refusal(&f).unwrap(), "无法读取 HEAD: x");
    f.head = Ok(true);
    f.dirty = Ok(true);
    assert_eq!(rebase_refusal(&f).unwrap(), "工作区有未提交的更改，无法 rebase");
    f.dirty = Ok(false);
    f.chain_len = 1;
    f.merge_in_window = true;
    assert_eq!(rebase_refusal(&f).unwrap(), "提交数量不足，无法 rebase HEAD~1");
    f.chain_len = 2;
    assert_eq!(rebase_refusal(&f).unwrap(), "无法 rebase 包含合并提交的历史");
    f.merge_in_window = false;
    assert_eq!(rebase_refusal(&f).unwrap(), "提交 abc 不在可 rebase 的范围内");
}

#[test]
fn rebase_without_commits_is_refused() {
    assert_eq!(rebase_refusal(&ready(vec![])).unwrap(), "没有需要 rebase 的提交");
}

#[test]
fn first_bad_commit_decides_the_refusal() {
    let f = ready(vec![
        OpLookup::Inside,
        OpLookup::BadHash("zz".to_string(), "bad".to_string()),
        OpLookup::Outside("abc".to_string()),
    ]);
    let mut f = f;
    f.chain_len = 4;
    assert_eq!(rebase_refusal(&f).unwrap(), "无效的提交哈希 zz: bad");
}

fn link(id: &str, parents: usize) -> gitsync::rebase::ChainCommit {
    gitsync::rebase::ChainCommit { id: id.to_string(), parent_count: parents }
}

#[test]
fn window_facts_read_the_chain_below_head() {
    let chain = vec![link("c3", 1), link("c2", 2), link("c1", 1), link("c0", 1)];
    let chosen = vec![
        gitsync::rebase::ChosenHash { hash: "c3".to_string(), parsed: Ok("c3".to_string()) },
        gitsync::rebase::ChosenHash { hash: "C1".to_string(), parsed: Ok("c1".to_string()) },
    ];
    let (len, merge, lookups) = gitsync::rebase::window_facts(&chain, &chosen);
    assert_eq!(len, 3);
    assert!(merge);
    assert!(matches!(lookups[0], OpLookup::Inside));
    assert!(matches!(&lookups[1], OpLookup::Outside(h) if h == "C1"));

    let short = vec![link("c3", 1)];
    let bad = vec![
        gitsync::rebase::ChosenHash { hash: "zz".to_string(), parsed: Err("bad".to_string()) },
        gitsync::rebase::ChosenHash { hash: "c3".to_string(), parsed: Ok("c3".to_string()) },
    ];
    let (len, merge, lookups) = gitsync::rebase::window_facts(&short, &bad);
    assert_eq!(len, 1);
    assert!(!merge);
    assert!(matches!(&lookups[0], OpLookup::BadHash(h, e) if h == "zz" && e == "bad"));
    assert!(matches!(lookups[1], OpLookup::Inside));
    assert_eq!(gitsync::rebase::chain_wanted(2), 3);
}
