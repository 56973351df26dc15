//! Interactive rebase planning: which of the chosen commits are replayed,
//! which are folded together, and with which messages.

use vstd::prelude::*;
use crate::analysis::join_sep;
use crate::text::{append_chars, chars_of, copy_chars, decimal, decimal_chars, string_of};

verus! {

/// One line of an interactive rebase, as the front end sends it (newest
/// commit first), with the message of the commit it names as git2 gives
/// it.
pub struct RebaseStep {
    pub action: String,
    pub new_message: Option<String>,
    pub message: Option<String>,
}

/// The action, the replacement message, and the commit's own message
/// (empty when git2 gives none) of a rebase line.
pub open spec fn step_view(s: RebaseStep) -> (Seq<char>, Option<Seq<char>>, Seq<char>) {
    (
        s.action@,
        match s.new_message {
            Some(m) => Some(m@),
            None => None,
        },
        match s.message {
            Some(m) => m@,
            None => Seq::<char>::empty(),
        },
    )
}

pub open spec fn step_views(steps: Seq<RebaseStep>) -> Seq<(Seq<char>, Option<Seq<char>>, Seq<char>)> {
    steps.map_values(|s: RebaseStep| step_view(s))
}

/// A commit of the rewritten history: the lines (indices into the rebase
/// list) whose changes it holds, oldest first, and its message.
pub struct RebaseGroup {
    pub members: Vec<usize>,
    pub message: String,
}

pub open spec fn group_view(g: RebaseGroup) -> (Seq<int>, Seq<char>) {
    (g.members@.map_values(|i: usize| i as int), g.message@)
}

/// The rewritten history, oldest commit first, and the error that stops
/// the rebase after those commits, if any.
pub struct RebasePlan {
    pub groups: Vec<RebaseGroup>,
    pub error: Option<String>,
}

/// The planner's state: the commits made so far, the lines waiting to be
/// folded into the next one (index and message), and whether a `squash`
/// with nothing before it has stopped the plan.
pub struct PlanState {
    pub groups: Seq<(Seq<int>, Seq<char>)>,
    pub pending: Seq<(int, Seq<char>)>,
    pub failed: bool,
}

/// The commits after the pending lines are made into one: nothing changes
/// when none are pending; otherwise one commit holds them all, with their
/// messages joined by a blank line.
pub open spec fn flush(groups: Seq<(Seq<int>, Seq<char>)>, pending: Seq<(int, Seq<char>)>) -> Seq<(Seq<int>, Seq<char>)> {
    if pending.len() == 0 {
        groups
    } else {
        groups.push(
            (
                pending.map_values(|p: (int, Seq<char>)| p.0),
                join_sep(pending.map_values(|p: (int, Seq<char>)| p.1), "\n\n"@),
            ),
        )
    }
}

/// The planner's state after line `idx` with view `op`: `drop` closes the
/// pending commit; `squash` joins it (and fails when there is none); any
/// other action closes it and starts a new one, with the replacement
/// message for `reword` when one was given.
pub open spec fn plan_step(st: PlanState, idx: int, op: (Seq<char>, Option<Seq<char>>, Seq<char>)) -> PlanState {
    if st.failed {
        st
    } else if op.0 == "drop"@ {
        PlanState { groups: flush(st.groups, st.pending), pending: seq![], failed: false }
    } else if op.0 == "squash"@ {
        if st.pending.len() == 0 {
            PlanState { failed: true, ..st }
        } else {
            PlanState { pending: st.pending.push((idx, op.2)), ..st }
        }
    } else {
        let msg = if op.0 == "reword"@ {
            match op.1 {
                Some(m) => m,
                None => op.2,
            }
        } else {
            op.2
        };
        PlanState { groups: flush(st.groups, st.pending), pending: seq![(idx, msg)], failed: false }
    }
}

/// The state after the `m` oldest lines (the list is newest first, so
/// these are its last `m`).
pub open spec fn plan_scan(ops: Seq<(Seq<char>, Option<Seq<char>>, Seq<char>)>, m: int) -> PlanState
    decreases m,
{
    if m <= 0 {
        PlanState { groups: seq![], pending: seq![], failed: false }
    } else {
        plan_step(plan_scan(ops, m - 1), ops.len() - m, ops[ops.len() - m])
    }
}

/// The rewritten history of a rebase list: an empty list is refused; a
/// `squash` with nothing before it stops the plan after the commits made
/// so far; otherwise the last pending commit is made too.
pub open spec fn plan_of(ops: Seq<(Seq<char>, Option<Seq<char>>, Seq<char>)>) -> (Seq<(Seq<int>, Seq<char>)>, Option<Seq<char>>) {
    if ops.len() == 0 {
        (seq![], Some("没有需要 rebase 的提交"@))
    } else {
        let st = plan_scan(ops, ops.len() as int);
        if st.failed {
            (st.groups, Some("squash 前必须有一个 pick/reword 提交"@))
        } else {
            (flush(st.groups, st.pending), None)
        }
    }
}

/// Makes the pending lines into one commit, when there are any.
fn flush_exec(groups: &mut Vec<RebaseGroup>, pending: &mut Vec<(usize, Vec<char>)>)
    ensures
        final(groups)@.map_values(|g: RebaseGroup| group_view(g)) == flush(
            old(groups)@.map_values(|g: RebaseGroup| group_view(g)),
            old(pending)@.map_values(|p: (usize, Vec<char>)| (p.0 as int, p.1@)),
        ),
        final(pending)@.len() == 0,
{
    if pending.len() == 0 {
        return;
    }
    let ghost pv = pending@.map_values(|p: (usize, Vec<char>)| (p.0 as int, p.1@));
    let ghost gv = groups@.map_values(|g: RebaseGroup| group_view(g));
    let ghost msgs = pv.map_values(|p: (int, Seq<char>)| p.1);
    let mut members: Vec<usize> = Vec::new();
    let mut message: Vec<char> = Vec::new();
    let sep = chars_of("\n\n");
    let mut i: usize = 0;
    assert(msgs.take(0) =~= Seq::<Seq<char>>::empty());
    while i < pending.len()
        invariant
            i <= pending@.len(),
            pv == pending@.map_values(|p: (usize, Vec<char>)| (p.0 as int, p.1@)),
            msgs == pv.map_values(|p: (int, Seq<char>)| p.1),
            sep@ == "\n\n"@,
            members@.map_values(|m: usize| m as int) == pv.take(i as int).map_values(
                |p: (int, Seq<char>)| p.0,
            ),
            message@ == join_sep(msgs.take(i as int), "\n\n"@),
        decreases pending@.len() - i,
    {
        assert(msgs.take(i + 1).drop_last() =~= msgs.take(i as int));
        assert(msgs.take(i + 1).last() == pending@[i as int].1@);
        if i > 0 {
            append_chars(&mut message, &sep);
        } else {
            assert(msgs.take(1) =~= seq![msgs[0]]);
        }
        append_chars(&mut message, &pending[i].1);
        let ghost before = members@.map_values(|m: usize| m as int);
        members.push(pending[i].0);
        assert(members@.map_values(|m: usize| m as int) =~= before.push(pending@[i as int].0 as int));
        assert(pv.take(i + 1).map_values(|p: (int, Seq<char>)| p.0) =~= pv.take(i as int).map_values(
            |p: (int, Seq<char>)| p.0,
        ).push(pv[i as int].0));
        i = i + 1;
    }
    assert(pv.take(pv.len() as int) =~= pv);
    assert(msgs.take(msgs.len() as int) =~= msgs);
    groups.push(RebaseGroup { members, message: string_of(&message) });
    assert(groups@.map_values(|g: RebaseGroup| group_view(g)) =~= gv.push(
        (pv.map_values(|p: (int, Seq<char>)| p.0), join_sep(msgs, "\n\n"@)),
    ));
    pending.clear();
}

/// Plans an interactive rebase.  `steps` lists the commits newest first;
/// they are replayed oldest first.  `drop` leaves a commit out; `squash`
/// folds it into the commit before it (the messages joined by a blank
/// line) and is refused when nothing comes before it; `reword` replaces
/// the message when a new one is given; anything else keeps the commit as
/// it is.  The plan holds the commits to make, in order, and the error
/// that stops the rebase after them.
pub fn plan_rebase(steps: &Vec<RebaseStep>) -> (r: RebasePlan)
    ensures
        r.groups@.map_values(|g: RebaseGroup| group_view(g)) == plan_of(step_views(steps@)).0,
        (match r.error {
            Some(e) => Some(e@),
            None => None,
        }) == plan_of(step_views(steps@)).1,
{
    let ghost ops = step_views(steps@);
    let n = steps.len();
    if n == 0 {
        let e = string_of(&chars_of("没有需要 rebase 的提交"));
        let r = RebasePlan { groups: Vec::new(), error: Some(e) };
        assert(r.groups@.map_values(|g: RebaseGroup| group_view(g)) =~= Seq::<(Seq<int>, Seq<char>)>::empty());
        return r;
    }
    let drop_word = string_of(&chars_of("drop"));
    let squash_word = string_of(&chars_of("squash"));
    let reword_word = string_of(&chars_of("reword"));
    let mut groups: Vec<RebaseGroup> = Vec::new();
    let mut pending: Vec<(usize, Vec<char>)> = Vec::new();
    let mut m: usize = 0;
    assert(groups@.map_values(|g: RebaseGroup| group_view(g)) =~= Seq::<(Seq<int>, Seq<char>)>::empty());
    assert(pending@.map_values(|p: (usize, Vec<char>)| (p.0 as int, p.1@)) =~= Seq::<(int, Seq<char>)>::empty());
    while m < n
        invariant
            n == steps@.len(),
            m <= n,
            ops == step_views(steps@),
            drop_word@ == "drop"@,
            squash_word@ == "squash"@,
            reword_word@ == "reword"@,
            !plan_scan(ops, m as int).failed,
            groups@.map_values(|g: RebaseGroup| group_view(g)) == plan_scan(ops, m as int).groups,
            pending@.map_values(|p: (usize, Vec<char>)| (p.0 as int, p.1@)) == plan_scan(
                ops,
                m as int,
            ).pending,
        decreases n - m,
    {
        let idx = n - 1 - m;
        let step = &steps[idx];
        let ghost op = ops[idx as int];
        let ghost pv = pending@.map_values(|p: (usize, Vec<char>)| (p.0 as int, p.1@));
        assert(op == step_view(*step));
        let own: Vec<char> = match &step.message {
            Some(msg) => chars_of(msg.as_str()),
            None => Vec::new(),
        };
        assert(own@ == op.2);
        if step.action == drop_word {
            flush_exec(&mut groups, &mut pending);
            assert(pending@.map_values(|p: (usize, Vec<char>)| (p.0 as int, p.1@)) =~= Seq::<
                (int, Seq<char>),
            >::empty());
        } else if step.action == squash_word {
            if pending.len() == 0 {
                let e = string_of(&chars_of("squash 前必须有一个 pick/reword 提交"));
                assert(plan_scan(ops, n as int).failed) by {
                    lemma_failed_stays(ops, (m + 1) as int, n as int);
                }
                assert(plan_scan(ops, n as int).groups == plan_scan(ops, (m + 1) as int).groups) by {
                    lemma_failed_stays(ops, (m + 1) as int, n as int);
                }
                return RebasePlan { groups, error: Some(e) };
            }
            pending.push((idx, own));
            assert(pending@.map_values(|p: (usize, Vec<char>)| (p.0 as int, p.1@)) =~= pv.push(
                (idx as int, op.2),
            ));
        } else {
            let msg: Vec<char> = if step.action == reword_word {
                match &step.new_message {
                    Some(nm) => chars_of(nm.as_str()),
                    None => copy_chars(&own),
                }
            } else {
                copy_chars(&own)
            };
            flush_exec(&mut groups, &mut pending);
            pending.push((idx, msg));
            assert(pending@.map_values(|p: (usize, Vec<char>)| (p.0 as int, p.1@)) =~= seq![
                (idx as int, msg@),
            ]);
        }
        m = m + 1;
    }
    flush_exec(&mut groups, &mut pending);
    RebasePlan { groups, error: None }
}

/// Once a plan has failed, later lines change nothing.
proof fn lemma_failed_stays(ops: Seq<(Seq<char>, Option<Seq<char>>, Seq<char>)>, m: int, k: int)
    requires
        0 <= m <= k,
        plan_scan(ops, m).failed,
    ensures
        plan_scan(ops, k) == plan_scan(ops, m),
    decreases k - m,
{
    if m < k {
        lemma_failed_stays(ops, m, k - 1);
    }
}

/// The indices of the `m` oldest lines that are not `drop`, oldest first.
pub open spec fn kept_lines(ops: Seq<(Seq<char>, Option<Seq<char>>, Seq<char>)>, m: int) -> Seq<int>
    decreases m,
{
    if m <= 0 {
        seq![]
    } else if ops[ops.len() - m].0 == "drop"@ {
        kept_lines(ops, m - 1)
    } else {
        kept_lines(ops, m - 1).push(ops.len() - m)
    }
}

/// The members of the commits `groups`, one commit after another.
pub open spec fn all_members(groups: Seq<(Seq<int>, Seq<char>)>) -> Seq<int>
    decreases groups.len(),
{
    if groups.len() == 0 {
        seq![]
    } else {
        all_members(groups.drop_last()) + groups.last().0
    }
}

proof fn lemma_scan_members(ops: Seq<(Seq<char>, Option<Seq<char>>, Seq<char>)>, m: int)
    requires
        0 <= m <= ops.len(),
        !plan_scan(ops, m).failed,
    ensures
        all_members(plan_scan(ops, m).groups) + plan_scan(ops, m).pending.map_values(
            |p: (int, Seq<char>)| p.0,
        ) == kept_lines(ops, m),
        forall|g: int| 0 <= g < plan_scan(ops, m).groups.len() ==> #[trigger] plan_scan(ops, m).groups[g].0.len() > 0,
    decreases m,
{
    let idx = |p: (int, Seq<char>)| p.0;
    if m == 0 {
        assert(plan_scan(ops, 0).pending.map_values(idx) =~= Seq::<int>::empty());
        assert(all_members(Seq::<(Seq<int>, Seq<char>)>::empty()) =~= Seq::<int>::empty());
    } else {
        let prev = plan_scan(ops, m - 1);
        if prev.failed {
            lemma_failed_stays(ops, m - 1, m);
        } else {
            lemma_scan_members(ops, m - 1);
            let op = ops[ops.len() - m];
            let i = ops.len() - m;
            let flushed = flush(prev.groups, prev.pending);
            assert(all_members(flushed) =~= all_members(prev.groups) + prev.pending.map_values(idx)) by {
                if prev.pending.len() > 0 {
                    assert(flushed.drop_last() =~= prev.groups);
                }
            }
            assert forall|g: int| 0 <= g < flushed.len() implies #[trigger] flushed[g].0.len() > 0 by {
                if g == prev.groups.len() {
                    assert(flushed[g].0.len() == prev.pending.len());
                }
            }
            if op.0 == "drop"@ {
                assert(seq![].map_values(idx) =~= Seq::<int>::empty());
                assert(all_members(flushed) + Seq::<(int, Seq<char>)>::empty().map_values(idx) =~= all_members(flushed));
            } else if op.0 == "squash"@ {
                if prev.pending.len() > 0 {
                    assert(prev.pending.push((i, op.2)).map_values(idx) =~= prev.pending.map_values(idx).push(i));
                }
            } else {
                let msg = if op.0 == "reword"@ {
                    match op.1 {
                        Some(mm) => mm,
                        None => op.2,
                    }
                } else {
                    op.2
                };
                assert(seq![(i, msg)].map_values(idx) =~= seq![i]);
            }
        }
    }
}

/// A rebase plan that succeeds keeps every line that is not `drop`, each
/// in exactly one new commit, oldest first, and makes no empty commit.
pub proof fn law_rebase_keeps_each_line_once(ops: Seq<(Seq<char>, Option<Seq<char>>, Seq<char>)>)
    requires
        plan_of(ops).1 is None,
    ensures
        all_members(plan_of(ops).0) == kept_lines(ops, ops.len() as int),
        forall|g: int| 0 <= g < plan_of(ops).0.len() ==> #[trigger] plan_of(ops).0[g].0.len() > 0,
{
    let n = ops.len() as int;
    let st = plan_scan(ops, n);
    lemma_scan_members(ops, n);
    let flushed = flush(st.groups, st.pending);
    assert(all_members(flushed) =~= all_members(st.groups) + st.pending.map_values(
        |p: (int, Seq<char>)| p.0,
    )) by {
        if st.pending.len() > 0 {
            assert(flushed.drop_last() =~= st.groups);
        }
    }
    assert forall|g: int| 0 <= g < flushed.len() implies #[trigger] flushed[g].0.len() > 0 by {
        if g == st.groups.len() {
            assert(flushed[g].0.len() == st.pending.len());
        }
    }
}

/// The message a line brings to its commit: the replacement message of a
/// `reword` when one was given, otherwise the commit's own message.
pub open spec fn line_message(op: (Seq<char>, Option<Seq<char>>, Seq<char>)) -> Seq<char> {
    if op.0 == "reword"@ {
        match op.1 {
            Some(m) => m,
            None => op.2,
        }
    } else {
        op.2
    }
}

/// Whether line `k` of a group with members `ms` has the right action: the
/// first is neither `drop` nor `squash`, the others are `squash`.
pub open spec fn member_action_fits(ops: Seq<(Seq<char>, Option<Seq<char>>, Seq<char>)>, ms: Seq<int>, k: int) -> bool {
    if k == 0 {
        ops[ms[k]].0 != "drop"@ && ops[ms[k]].0 != "squash"@
    } else {
        ops[ms[k]].0 == "squash"@
    }
}

/// Whether a new commit is made as a rebase makes one: one line that is
/// neither `drop` nor `squash`, then the `squash` lines folded into it, and
/// as message the lines' messages joined by a blank line.
pub open spec fn group_made_from(ops: Seq<(Seq<char>, Option<Seq<char>>, Seq<char>)>, g: (Seq<int>, Seq<char>)) -> bool {
    &&& g.0.len() > 0
    &&& forall|k: int| 0 <= k < g.0.len() ==> 0 <= #[trigger] g.0[k] < ops.len()
    &&& forall|k: int| 0 <= k < g.0.len() ==> #[trigger] member_action_fits(ops, g.0, k)
    &&& g.1 == join_sep(g.0.map_values(|i: int| line_message(ops[i])), "\n\n"@)
}

/// The lines of the pending commit.
pub open spec fn pending_members(pending: Seq<(int, Seq<char>)>) -> Seq<int> {
    pending.map_values(|p: (int, Seq<char>)| p.0)
}

pub open spec fn pending_fits(ops: Seq<(Seq<char>, Option<Seq<char>>, Seq<char>)>, pending: Seq<(int, Seq<char>)>) -> bool {
    &&& forall|k: int| 0 <= k < pending.len() ==> 0 <= #[trigger] pending[k].0 < ops.len()
    &&& forall|k: int| 0 <= k < pending.len() ==> #[trigger] pending[k].1 == line_message(ops[pending[k].0])
    &&& forall|k: int| 0 <= k < pending.len() ==> #[trigger] member_action_fits(
        ops,
        pending_members(pending),
        k,
    )
}

proof fn lemma_flush_fits(ops: Seq<(Seq<char>, Option<Seq<char>>, Seq<char>)>, groups: Seq<(Seq<int>, Seq<char>)>, pending: Seq<(int, Seq<char>)>)
    requires
        forall|g: int| 0 <= g < groups.len() ==> group_made_from(ops, #[trigger] groups[g]),
        pending_fits(ops, pending),
    ensures
        forall|g: int| 0 <= g < flush(groups, pending).len() ==> group_made_from(ops, #[trigger] flush(groups, pending)[g]),
{
    if pending.len() > 0 {
        let f = flush(groups, pending);
        let ms = pending_members(pending);
        assert(pending.map_values(|p: (int, Seq<char>)| p.1) =~= ms.map_values(|i: int| line_message(ops[i])));
        assert(group_made_from(ops, f[groups.len() as int])) by {
            assert forall|k: int| 0 <= k < ms.len() implies 0 <= #[trigger] ms[k] < ops.len() by {
                assert(ms[k] == pending[k].0);
            }
        }
        assert forall|g: int| 0 <= g < f.len() implies group_made_from(ops, #[trigger] f[g]) by {
            if g < groups.len() {
                assert(f[g] == groups[g]);
            }
        }
    }
}

proof fn lemma_scan_groups(ops: Seq<(Seq<char>, Option<Seq<char>>, Seq<char>)>, m: int)
    requires
        0 <= m <= ops.len(),
    ensures
        forall|g: int| 0 <= g < plan_scan(ops, m).groups.len() ==> group_made_from(ops, #[trigger] plan_scan(ops, m).groups[g]),
        pending_fits(ops, plan_scan(ops, m).pending),
    decreases m,
{
    if m > 0 {
        lemma_scan_groups(ops, m - 1);
        let prev = plan_scan(ops, m - 1);
        let op = ops[ops.len() - m];
        let i = ops.len() - m;
        if !prev.failed {
            lemma_flush_fits(ops, prev.groups, prev.pending);
            if op.0 == "drop"@ {
                assert(pending_fits(ops, Seq::<(int, Seq<char>)>::empty()));
            } else if op.0 == "squash"@ {
                if prev.pending.len() > 0 {
                    reveal_strlit("squash");
                    reveal_strlit("reword");
                    assert("squash"@[0] != "reword"@[0]);
                    assert(op.0 != "reword"@);
                    assert(line_message(op) == op.2);
                    let np = prev.pending.push((i, op.2));
                    assert(pending_members(np) =~= pending_members(prev.pending).push(i));
                    assert forall|k: int| 0 <= k < np.len() implies #[trigger] member_action_fits(
                        ops,
                        pending_members(np),
                        k,
                    ) by {
                        if k < prev.pending.len() {
                            assert(pending_members(np)[k] == pending_members(prev.pending)[k]);
                            assert(member_action_fits(ops, pending_members(prev.pending), k));
                        }
                    }
                    assert forall|k: int| 0 <= k < np.len() implies #[trigger] np[k].1 == line_message(ops[np[k].0]) by {
                        if k < prev.pending.len() {
                            assert(np[k] == prev.pending[k]);
                        }
                    }
                    assert forall|k: int| 0 <= k < np.len() implies 0 <= #[trigger] np[k].0 < ops.len() by {
                        if k < prev.pending.len() {
                            assert(np[k] == prev.pending[k]);
                        }
                    }
                }
            } else {
                let msg = if op.0 == "reword"@ {
                    match op.1 {
                        Some(mm) => mm,
                        None => op.2,
                    }
                } else {
                    op.2
                };
                let np = seq![(i, msg)];
                assert(pending_members(np) =~= seq![i]);
                assert(member_action_fits(ops, pending_members(np), 0));
            }
        }
    }
}

/// Every commit a successful rebase plan makes starts with one line that is
/// neither `drop` nor `squash`, holds after it only `squash` lines, and has
/// as message the messages of its lines (a `reword` line's replacement when
/// given) joined by a blank line.
pub proof fn law_rebase_commits_join_their_messages(ops: Seq<(Seq<char>, Option<Seq<char>>, Seq<char>)>)
    requires
        plan_of(ops).1 is None,
    ensures
        forall|g: int| 0 <= g < plan_of(ops).0.len() ==> group_made_from(ops, #[trigger] plan_of(ops).0[g]),
{
    let st = plan_scan(ops, ops.len() as int);
    lemma_scan_groups(ops, ops.len() as int);
    lemma_flush_fits(ops, st.groups, st.pending);
}

/// Whether the line replayed `k`-th (1 for the oldest; the list is newest
/// first) is a `squash` with nothing to fold into: the first line replayed,
/// or one right after a `drop`.
pub open spec fn orphan_squash_at(ops: Seq<(Seq<char>, Option<Seq<char>>, Seq<char>)>, k: int) -> bool {
    &&& 1 <= k <= ops.len()
    &&& ops[ops.len() - k].0 == "squash"@
    &&& (k == 1 || ops[ops.len() - k + 1].0 == "drop"@)
}

proof fn lemma_scan_orphans(ops: Seq<(Seq<char>, Option<Seq<char>>, Seq<char>)>, m: int)
    requires
        0 <= m <= ops.len(),
    ensures
        plan_scan(ops, m).failed <==> exists|k: int| 1 <= k <= m && #[trigger] orphan_squash_at(ops, k),
        !plan_scan(ops, m).failed ==> (plan_scan(ops, m).pending.len() == 0 <==> (m == 0 || ops[ops.len() - m].0 == "drop"@)),
    decreases m,
{
    reveal_strlit("drop");
    reveal_strlit("squash");
    assert("drop"@[0] != "squash"@[0]);
    if m > 0 {
        lemma_scan_orphans(ops, m - 1);
        let prev = plan_scan(ops, m - 1);
        let op = ops[ops.len() - m];
        if prev.failed {
            let k = choose|k: int| 1 <= k <= m - 1 && #[trigger] orphan_squash_at(ops, k);
            assert(orphan_squash_at(ops, k));
        } else if op.0 == "drop"@ {
            assert(!orphan_squash_at(ops, m));
            assert forall|k: int| 1 <= k <= m implies !#[trigger] orphan_squash_at(ops, k) by {
                if k < m {
                    assert(!(exists|k2: int| 1 <= k2 <= m - 1 && #[trigger] orphan_squash_at(ops, k2)));
                }
            }
        } else if op.0 == "squash"@ {
            if prev.pending.len() == 0 {
                assert(orphan_squash_at(ops, m));
            } else {
                assert(!orphan_squash_at(ops, m));
                assert forall|k: int| 1 <= k <= m implies !#[trigger] orphan_squash_at(ops, k) by {
                    if k < m {
                        assert(!(exists|k2: int| 1 <= k2 <= m - 1 && #[trigger] orphan_squash_at(ops, k2)));
                    }
                }
            }
        } else {
            assert(!orphan_squash_at(ops, m));
            assert forall|k: int| 1 <= k <= m implies !#[trigger] orphan_squash_at(ops, k) by {
                if k < m {
                    assert(!(exists|k2: int| 1 <= k2 <= m - 1 && #[trigger] orphan_squash_at(ops, k2)));
                }
            }
        }
    }
}

/// A rebase goes ahead (neither refused nor stopped while planning) exactly
/// when every repository check passes (see
/// `law_rebase_refused_unless_all_checks_pass`) and no `squash` comes first
/// in replay order or right after a `drop`.
pub proof fn law_rebase_goes_ahead_only_when_every_check_passes(
    f: RebaseFacts,
    ops: Seq<(Seq<char>, Option<Seq<char>>, Seq<char>)>,
)
    requires
        ops.len() == f.lookups@.len(),
    ensures
        (refusal_of(f) is None && plan_of(ops).1 is None) <==> {
            &&& f.clean
            &&& f.head == Ok::<bool, String>(true)
            &&& f.lookups@.len() > 0
            &&& f.dirty == Ok::<bool, String>(false)
            &&& f.head_commit is Ok
            &&& f.chain_len > f.lookups@.len()
            &&& !f.merge_in_window
            &&& forall|i: int| 0 <= i < f.lookups@.len() ==> #[trigger] f.lookups@[i] is Inside
            &&& forall|k: int| !#[trigger] orphan_squash_at(ops, k)
        },
{
    law_rebase_refused_unless_all_checks_pass(f);
    lemma_scan_orphans(ops, ops.len() as int);
}

/// What the repository says of one chosen commit: its hash does not parse
/// (with git2's reason), it is not among the commits being rebased, or it
/// is one of them.
pub enum OpLookup {
    BadHash(String, String),
    Outside(String),
    Inside,
}

/// What the repository says before a rebase, one entry per check in the
/// order they are made.  A read that failed carries the message to show.
pub struct RebaseFacts {
    /// No merge, cherry-pick or other operation is in progress.
    pub clean: bool,
    /// Whether HEAD is a branch.
    pub head: Result<bool, String>,
    /// Whether a tracked change in the index or worktree blocks the rebase.
    pub dirty: Result<bool, String>,
    /// Whether HEAD's commit could be read.
    pub head_commit: Result<(), String>,
    /// How many commits the first-parent chain from HEAD has (HEAD
    /// included), counted at most up to one more than the chosen commits.
    pub chain_len: usize,
    /// Whether one of the commits being rebased is a merge.
    pub merge_in_window: bool,
    /// One entry per chosen commit, in the order the front end sent them.
    pub lookups: Vec<OpLookup>,
}

/// A commit on the first-parent chain from HEAD, as git2 gives it: its id
/// (40 hex digits) and how many parents it has.
pub struct ChainCommit {
    pub id: String,
    pub parent_count: usize,
}

/// A chosen commit as the front end sent it, and its hash read as an id
/// (40 hex digits) or git2's reason why it could not be.
pub struct ChosenHash {
    pub hash: String,
    pub parsed: Result<String, String>,
}

/// Whether `id` is one of the first `n` commits of the chain.
pub open spec fn in_window(chain: Seq<ChainCommit>, n: int, id: Seq<char>) -> bool {
    exists|i: int| 0 <= i < n && i < chain.len() && (#[trigger] chain[i]).id@ == id
}

/// Whether `l` says of the chosen commit `c` what the window of the first
/// `n` chain commits says.
pub open spec fn lookup_fits(chain: Seq<ChainCommit>, n: int, c: ChosenHash, l: OpLookup) -> bool {
    match c.parsed {
        Err(e) => l matches OpLookup::BadHash(h, m) && h@ == c.hash@ && m@ == e@,
        Ok(id) => if in_window(chain, n, id@) {
            l is Inside
        } else {
            l matches OpLookup::Outside(h) && h@ == c.hash@
        },
    }
}

/// How many chain commits a rebase of `n` chosen commits reads: the `n`
/// being rebased and the base below them.
pub fn chain_wanted(n: usize) -> (r: usize)
    ensures
        r as int == if n < usize::MAX { n + 1 } else { n as int },
{
    if n < usize::MAX {
        n + 1
    } else {
        n
    }
}

fn string_eq(a: &String, b: &String) -> (r: bool)
    ensures
        r == (a@ == b@),
{
    *a == *b
}

/// The window facts of a rebase of the chosen commits: how long the chain
/// is (counted up to one more than the chosen commits), whether one of the
/// first `n` chain commits is a merge, and what each chosen commit is.
pub fn window_facts(chain: &Vec<ChainCommit>, chosen: &Vec<ChosenHash>) -> (r: (usize, bool, Vec<OpLookup>))
    ensures
        r.0 as int == if chain@.len() <= chosen@.len() { chain@.len() as int } else { chosen@.len() + 1int },
        r.1 == exists|i: int| 0 <= i < chosen@.len() && i < chain@.len() && (#[trigger] chain@[i]).parent_count > 1,
        r.2@.len() == chosen@.len(),
        forall|i: int| 0 <= i < chosen@.len() ==> lookup_fits(chain@, chosen@.len() as int, chosen@[i], #[trigger] r.2@[i]),
{
    let n = chosen.len();
    let w = if chain.len() <= n { chain.len() } else { n };
    let chain_len = if chain.len() <= n { chain.len() } else { n + 1 };
    let mut merge = false;
    let mut i: usize = 0;
    while i < w
        invariant
            w <= chain@.len(),
            w <= n,
            n == chosen@.len(),
            i <= w,
            merge == exists|k: int| 0 <= k < i && (#[trigger] chain@[k]).parent_count > 1,
        decreases w - i,
    {
        if chain[i].parent_count > 1 {
            merge = true;
        }
        i = i + 1;
    }
    let mut lookups: Vec<OpLookup> = Vec::new();
    let mut j: usize = 0;
    while j < n
        invariant
            n == chosen@.len(),
            w <= chain@.len(),
            w as int == if chain@.len() <= n { chain@.len() as int } else { n as int },
            j <= n,
            lookups@.len() == j,
            forall|k: int| 0 <= k < j ==> lookup_fits(chain@, n as int, chosen@[k], #[trigger] lookups@[k]),
        decreases n - j,
    {
        let c = &chosen[j];
        let l = match &c.parsed {
            Err(e) => OpLookup::BadHash(c.hash.clone(), e.clone()),
            Ok(id) => {
                let mut found = false;
                let mut k: usize = 0;
                while k < w
                    invariant
                        w <= chain@.len(),
                        w as int == if chain@.len() <= n { chain@.len() as int } else { n as int },
                        k <= w,
                        found == exists|q: int| 0 <= q < k && (#[trigger] chain@[q]).id@ == id@,
                    decreases w - k,
                {
                    if string_eq(&chain[k].id, id) {
                        found = true;
                    }
                    k = k + 1;
                }
                assert(found == in_window(chain@, n as int, id@));
                if found {
                    OpLookup::Inside
                } else {
                    OpLookup::Outside(c.hash.clone())
                }
            },
        };
        lookups.push(l);
        j = j + 1;
    }
    (chain_len, merge, lookups)
}

/// The message of a chosen commit that cannot be rebased, if any.
pub open spec fn lookup_message(l: OpLookup) -> Option<Seq<char>> {
    match l {
        OpLookup::BadHash(h, e) => Some("无效的提交哈希 "@ + h@ + ": "@ + e@),
        OpLookup::Outside(h) => Some("提交 "@ + h@ + " 不在可 rebase 的范围内"@),
        OpLookup::Inside => None,
    }
}

/// The message of the first chosen commit from index `i` on that cannot be
/// rebased.
pub open spec fn first_lookup_error(ls: Seq<OpLookup>, i: int) -> Option<Seq<char>>
    decreases ls.len() - i,
{
    if i < 0 || i >= ls.len() {
        None
    } else if lookup_message(ls[i]) is Some {
        lookup_message(ls[i])
    } else {
        first_lookup_error(ls, i + 1)
    }
}

/// Why a rebase is refused, checked in this order: an operation in
/// progress, HEAD unreadable or detached, no chosen commit, an unreadable
/// status or a dirty worktree, HEAD's commit unreadable, fewer than
/// N + 1 commits on the first-parent chain (N chosen commits), a merge
/// among the N commits, then the first chosen commit that cannot be
/// rebased.  `None` when the rebase may go ahead.
pub open spec fn refusal_of(f: RebaseFacts) -> Option<Seq<char>> {
    let n = f.lookups@.len();
    if !f.clean {
        Some("仓库存在未完成的操作（合并/拣选等），无法 rebase"@)
    } else if let Err(m) = f.head {
        Some(m@)
    } else if f.head == Ok::<bool, String>(false) {
        Some("当前处于游离 HEAD 状态，无法 rebase"@)
    } else if n == 0 {
        Some("没有需要 rebase 的提交"@)
    } else if let Err(m) = f.dirty {
        Some(m@)
    } else if f.dirty == Ok::<bool, String>(true) {
        Some("工作区有未提交的更改，无法 rebase"@)
    } else if let Err(m) = f.head_commit {
        Some(m@)
    } else if f.chain_len < n + 1 {
        Some("提交数量不足，无法 rebase HEAD~"@ + decimal(n))
    } else if f.merge_in_window {
        Some("无法 rebase 包含合并提交的历史"@)
    } else {
        first_lookup_error(f.lookups@, 0)
    }
}

fn lookup_error(l: &OpLookup) -> (r: Option<String>)
    ensures
        match r {
            Some(m) => lookup_message(*l) == Some(m@),
            None => lookup_message(*l) is None,
        },
{
    match l {
        OpLookup::BadHash(h, e) => {
            let mut v = chars_of("无效的提交哈希 ");
            append_chars(&mut v, &chars_of(h.as_str()));
            append_chars(&mut v, &chars_of(": "));
            append_chars(&mut v, &chars_of(e.as_str()));
            Some(string_of(&v))
        },
        OpLookup::Outside(h) => {
            let mut v = chars_of("提交 ");
            append_chars(&mut v, &chars_of(h.as_str()));
            append_chars(&mut v, &chars_of(" 不在可 rebase 的范围内"));
            Some(string_of(&v))
        },
        OpLookup::Inside => None,
    }
}

fn copy_string(s: &String) -> (r: String)
    ensures
        r@ == s@,
{
    s.clone()
}

/// The message a rebase is refused with, in the order the checks are made
/// (see `refusal_of`), or `None` when it may go ahead.
pub fn rebase_refusal(f: &RebaseFacts) -> (r: Option<String>)
    ensures
        match r {
            Some(m) => refusal_of(*f) == Some(m@),
            None => refusal_of(*f) is None,
        },
{
    let n = f.lookups.len();
    if !f.clean {
        return Some(string_of(&chars_of("仓库存在未完成的操作（合并/拣选等），无法 rebase")));
    }
    match &f.head {
        Err(m) => return Some(copy_string(m)),
        Ok(false) => return Some(string_of(&chars_of("当前处于游离 HEAD 状态，无法 rebase"))),
        Ok(true) => {},
    }
    if n == 0 {
        return Some(string_of(&chars_of("没有需要 rebase 的提交")));
    }
    match &f.dirty {
        Err(m) => return Some(copy_string(m)),
        Ok(true) => return Some(string_of(&chars_of("工作区有未提交的更改，无法 rebase"))),
        Ok(false) => {},
    }
    match &f.head_commit {
        Err(m) => return Some(copy_string(m)),
        Ok(()) => {},
    }
    if f.chain_len <= n {
        let mut v = chars_of("提交数量不足，无法 rebase HEAD~");
        append_chars(&mut v, &decimal_chars(n));
        return Some(string_of(&v));
    }
    if f.merge_in_window {
        return Some(string_of(&chars_of("无法 rebase 包含合并提交的历史")));
    }
    let mut i: usize = 0;
    while i < n
        invariant
            n == f.lookups@.len(),
            i <= n,
            first_lookup_error(f.lookups@, 0) == first_lookup_error(f.lookups@, i as int),
            refusal_of(*f) == first_lookup_error(f.lookups@, 0),
        decreases n - i,
    {
        match lookup_error(&f.lookups[i]) {
            Some(m) => return Some(m),
            None => {},
        }
        i = i + 1;
    }
    None
}

/// A rebase goes ahead exactly when no operation is in progress, HEAD is a
/// readable branch, at least one commit was chosen, the worktree is clean,
/// HEAD's commit is readable, the first-parent chain reaches back past the
/// chosen commits, none of those commits is a merge, and every chosen
/// commit's hash parses and names one of them.
pub proof fn law_rebase_refused_unless_all_checks_pass(f: RebaseFacts)
    ensures
        refusal_of(f) is None <==> {
            &&& f.clean
            &&& f.head == Ok::<bool, String>(true)
            &&& f.lookups@.len() > 0
            &&& f.dirty == Ok::<bool, String>(false)
            &&& f.head_commit is Ok
            &&& f.chain_len > f.lookups@.len()
            &&& !f.merge_in_window
            &&& forall|i: int| 0 <= i < f.lookups@.len() ==> #[trigger] f.lookups@[i] is Inside
        },
{
    lemma_first_lookup_none(f.lookups@, 0);
    match f.head {
        Ok(b) => {
            if b {
                assert(f.head == Ok::<bool, String>(true));
            }
        },
        Err(_) => {},
    }
    match f.dirty {
        Ok(b) => {
            if !b {
                assert(f.dirty == Ok::<bool, String>(false));
            }
        },
        Err(_) => {},
    }
}

proof fn lemma_first_lookup_none(ls: Seq<OpLookup>, i: int)
    requires
        0 <= i,
    ensures
        first_lookup_error(ls, i) is None <==> forall|k: int| i <= k < ls.len() ==> #[trigger] ls[k] is Inside,
    decreases ls.len() - i,
{
    if i < ls.len() {
        lemma_first_lookup_none(ls, i + 1);
        if !(ls[i] is Inside) {
            assert(lookup_message(ls[i]) is Some);
        }
    }
}

} // verus!
