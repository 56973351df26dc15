//! Repository-level choices: which branches the branch list shows and in
//! what order, which local branch a checkout switches to, which commit a
//! point in time falls on, which hook files are listed, and what the health
//! report flags.

use vstd::prelude::*;
use crate::history::{commit_record, make_commit, Commit};
use crate::text::{append_chars, chars_of, same_chars, string_of};

verus! {

/// A branch of the branch list.
pub struct Branch {
    pub name: String,
    pub is_head: bool,
}

pub open spec fn branch_view(b: Branch) -> (Seq<char>, bool) {
    (b.name@, b.is_head)
}

/// Whether `s` ends with `suffix`.
pub open spec fn ends_with(s: Seq<char>, suffix: Seq<char>) -> bool {
    suffix.len() <= s.len() && s.skip(s.len() - suffix.len()) == suffix
}

/// Whether `s` ends with `suffix`.
pub fn ends_with_exec(s: &Vec<char>, suffix: &Vec<char>) -> (r: bool)
    ensures
        r == ends_with(s@, suffix@),
{
    if suffix.len() > s.len() {
        return false;
    }
    let off = s.len() - suffix.len();
    let mut i: usize = 0;
    while i < suffix.len()
        invariant
            i <= suffix@.len(),
            s@.len() <= usize::MAX,
            off == s@.len() - suffix@.len(),
            forall|j: int| 0 <= j < i ==> s@[off + j] == suffix@[j],
        decreases suffix@.len() - i,
    {
        if s[off + i] != suffix[i] {
            assert(s@.skip(off as int)[i as int] != suffix@[i as int]);
            return false;
        }
        i = i + 1;
    }
    assert(s@.skip(off as int) =~= suffix@);
    true
}

/// The name shown for a branch: its name, or `未知` when git2 cannot give
/// it as UTF-8.
pub open spec fn branch_name_of(n: Option<Seq<char>>) -> Seq<char> {
    match n {
        Some(s) => s,
        None => "未知"@,
    }
}

/// Whether a name is a symbolic `HEAD` reference rather than a branch.
pub open spec fn is_head_ref(n: Seq<char>) -> bool {
    n == "HEAD"@ || ends_with(n, "/HEAD"@)
}

/// The listed branches in repository order, each marked when it is the
/// checked-out branch.
pub open spec fn listed_branches(names: Seq<Option<Seq<char>>>, head: Option<Seq<char>>) -> Seq<(Seq<char>, bool)>
    decreases names.len(),
{
    if names.len() == 0 {
        seq![]
    } else {
        let r = listed_branches(names.drop_last(), head);
        let n = branch_name_of(names.last());
        if is_head_ref(n) {
            r
        } else {
            r.push((n, head == Some(n)))
        }
    }
}

/// The entries of `bs` whose head mark is `mark`, in order.
pub open spec fn with_mark(bs: Seq<(Seq<char>, bool)>, mark: bool) -> Seq<(Seq<char>, bool)>
    decreases bs.len(),
{
    if bs.len() == 0 {
        seq![]
    } else {
        let r = with_mark(bs.drop_last(), mark);
        if bs.last().1 == mark {
            r.push(bs.last())
        } else {
            r
        }
    }
}

/// The branch list: the checked-out branch first, then the others in
/// repository order (a stable sort on the head mark).
pub open spec fn branch_list(names: Seq<Option<Seq<char>>>, head: Option<Seq<char>>) -> Seq<(Seq<char>, bool)> {
    let all = listed_branches(names, head);
    with_mark(all, true) + with_mark(all, false)
}

proof fn lemma_listed_branches(names: Seq<Option<Seq<char>>>, head: Option<Seq<char>>)
    ensures
        forall|i: int|
            0 <= i < listed_branches(names, head).len() ==> !is_head_ref(
                (#[trigger] listed_branches(names, head)[i]).0,
            ) && (listed_branches(names, head)[i].1 <==> head == Some(listed_branches(names, head)[i].0)),
    decreases names.len(),
{
    if names.len() > 0 {
        lemma_listed_branches(names.drop_last(), head);
        let r = listed_branches(names.drop_last(), head);
        let w = listed_branches(names, head);
        assert forall|i: int| 0 <= i < w.len() implies !is_head_ref((#[trigger] w[i]).0) && (w[i].1 <==> head
            == Some(w[i].0)) by {
            if i < r.len() {
                assert(w[i] == r[i]);
            }
        }
    }
}

proof fn lemma_with_mark(bs: Seq<(Seq<char>, bool)>, mark: bool)
    ensures
        forall|i: int| 0 <= i < with_mark(bs, mark).len() ==> (#[trigger] with_mark(bs, mark)[i]).1 == mark,
        forall|i: int| 0 <= i < with_mark(bs, mark).len() ==> bs.contains(#[trigger] with_mark(bs, mark)[i]),
    decreases bs.len(),
{
    if bs.len() > 0 {
        let d = bs.drop_last();
        lemma_with_mark(d, mark);
        let r = with_mark(d, mark);
        let w = with_mark(bs, mark);
        assert forall|i: int| 0 <= i < w.len() implies bs.contains(#[trigger] w[i]) by {
            if i < r.len() {
                assert(w[i] == r[i]);
                assert(d.contains(r[i]));
                let k = choose|k: int| 0 <= k < d.len() && d[k] == r[i];
                assert(bs[k] == r[i]);
            } else {
                assert(bs[bs.len() - 1] == w[i]);
            }
        }
    }
}

/// The branch list shows the checked-out branch before all others, marks
/// exactly the branches named as HEAD is, and never lists a `HEAD`
/// reference itself.
pub proof fn law_branch_list_head_first(names: Seq<Option<Seq<char>>>, head: Option<Seq<char>>)
    ensures
        forall|i: int, j: int|
            0 <= i < j < branch_list(names, head).len() && (#[trigger] branch_list(names, head)[j]).1
                ==> (#[trigger] branch_list(names, head)[i]).1,
        forall|i: int|
            0 <= i < branch_list(names, head).len() ==> ((#[trigger] branch_list(names, head)[i]).1
                <==> head == Some(branch_list(names, head)[i].0)) && !is_head_ref(branch_list(names, head)[i].0),
{
    let all = listed_branches(names, head);
    let t = with_mark(all, true);
    let f = with_mark(all, false);
    let r = branch_list(names, head);
    lemma_listed_branches(names, head);
    lemma_with_mark(all, true);
    lemma_with_mark(all, false);
    assert forall|i: int, j: int| 0 <= i < j < r.len() && (#[trigger] r[j]).1 implies (#[trigger] r[i]).1 by {
        if j < t.len() {
            assert(r[i] == t[i]);
        } else {
            assert(r[j] == f[j - t.len()]);
        }
    }
    assert forall|i: int| 0 <= i < r.len() implies ((#[trigger] r[i]).1 <==> head == Some(r[i].0)) && !is_head_ref(
        r[i].0,
    ) by {
        let e = r[i];
        if i < t.len() {
            assert(e == t[i]);
            assert(all.contains(t[i]));
        } else {
            assert(e == f[i - t.len()]);
            assert(all.contains(f[i - t.len()]));
        }
        let k = choose|k: int| 0 <= k < all.len() && all[k] == e;
        assert(!is_head_ref(all[k].0) && (all[k].1 <==> head == Some(all[k].0)));
    }
}

pub open spec fn opt_text(o: Option<String>) -> Option<Seq<char>> {
    match o {
        Some(s) => Some(s@),
        None => None,
    }
}

/// The branch list from the names git2 gives (`None` for a name that is not
/// UTF-8) and the short name of `HEAD`.
pub fn select_branches(names: &Vec<Option<String>>, head: &Option<String>) -> (r: Vec<Branch>)
    ensures
        r@.map_values(|b: Branch| branch_view(b)) == branch_list(
            names@.map_values(|n: Option<String>| opt_text(n)),
            opt_text(*head),
        ),
{
    let ghost ns = names@.map_values(|n: Option<String>| opt_text(n));
    let ghost hv = opt_text(*head);
    let head_chars: Option<Vec<char>> = match head {
        Some(h) => Some(chars_of(h.as_str())),
        None => None,
    };
    let bare = chars_of("HEAD");
    let suffix = chars_of("/HEAD");
    let mut heads: Vec<Branch> = Vec::new();
    let mut others: Vec<Branch> = Vec::new();
    let mut i: usize = 0;
    while i < names.len()
        invariant
            i <= names@.len(),
            ns == names@.map_values(|n: Option<String>| opt_text(n)),
            hv == opt_text(*head),
            bare@ == "HEAD"@,
            suffix@ == "/HEAD"@,
            match head_chars {
                Some(h) => hv == Some(h@),
                None => hv is None,
            },
            heads@.map_values(|b: Branch| branch_view(b)) == with_mark(listed_branches(ns.take(i as int), hv), true),
            others@.map_values(|b: Branch| branch_view(b)) == with_mark(listed_branches(ns.take(i as int), hv), false),
        decreases names@.len() - i,
    {
        assert(ns.take(i + 1).drop_last() =~= ns.take(i as int));
        assert(ns.take(i + 1).last() == opt_text(names@[i as int]));
        let name = match &names[i] {
            Some(n) => chars_of(n.as_str()),
            None => chars_of("未知"),
        };
        let ghost before = listed_branches(ns.take(i as int), hv);
        if !(same_chars(&name, &bare) || ends_with_exec(&name, &suffix)) {
            let is_head = match &head_chars {
                Some(h) => same_chars(h, &name),
                None => false,
            };
            let ghost entry = (name@, is_head);
            assert(before.push(entry).drop_last() =~= before);
            assert(listed_branches(ns.take(i + 1), hv) == before.push(entry));
            let b = Branch { name: string_of(&name), is_head };
            if is_head {
                let ghost hb = heads@.map_values(|b: Branch| branch_view(b));
                heads.push(b);
                assert(heads@.map_values(|b: Branch| branch_view(b)) =~= hb.push(entry));
                assert(with_mark(before.push(entry), true) == with_mark(before, true).push(entry));
                assert(with_mark(before.push(entry), false) == with_mark(before, false));
            } else {
                let ghost ob = others@.map_values(|b: Branch| branch_view(b));
                others.push(b);
                assert(others@.map_values(|b: Branch| branch_view(b)) =~= ob.push(entry));
                assert(with_mark(before.push(entry), false) == with_mark(before, false).push(entry));
                assert(with_mark(before.push(entry), true) == with_mark(before, true));
            }
        }
        i = i + 1;
    }
    assert(ns.take(ns.len() as int) == ns);
    let ghost hv2 = heads@.map_values(|b: Branch| branch_view(b));
    let ghost ov = others@.map_values(|b: Branch| branch_view(b));
    heads.append(&mut others);
    assert(heads@.map_values(|b: Branch| branch_view(b)) =~= hv2 + ov);
    heads
}

/// Whether `s` starts with `prefix`.
pub open spec fn starts_with(s: Seq<char>, prefix: Seq<char>) -> bool {
    prefix.len() <= s.len() && s.take(prefix.len() as int) == prefix
}

/// The local branch a remote-tracking name `remote/branch` stands for,
/// trying the remotes in order from index `i`.
pub open spec fn remote_local_name(name: Seq<char>, remotes: Seq<Seq<char>>, i: int) -> Option<Seq<char>>
    decreases remotes.len() - i,
{
    if i < 0 || i >= remotes.len() {
        None
    } else if starts_with(name, remotes[i].push('/')) {
        Some(name.skip(remotes[i].len() + 1int))
    } else {
        remote_local_name(name, remotes, i + 1)
    }
}

/// The branch a checkout switches to, and whether a local branch must be
/// created to track the remote one: an existing local branch is used as it
/// is; a name `remote/branch` of a known remote switches to `branch`,
/// creating it when it does not exist; any other name is used as it is.
pub open spec fn switch_target(name: Seq<char>, locals: Seq<Seq<char>>, remotes: Seq<Seq<char>>) -> (Seq<char>, bool) {
    if locals.contains(name) {
        (name, false)
    } else {
        match remote_local_name(name, remotes, 0) {
            Some(l) => (l, !locals.contains(l)),
            None => (name, false),
        }
    }
}

fn contains_name(list: &Vec<String>, name: &Vec<char>) -> (r: bool)
    ensures
        r == list@.map_values(|s: String| s@).contains(name@),
{
    let ghost lv = list@.map_values(|s: String| s@);
    let mut i: usize = 0;
    while i < list.len()
        invariant
            i <= list@.len(),
            lv == list@.map_values(|s: String| s@),
            forall|j: int| 0 <= j < i ==> lv[j] != name@,
        decreases list@.len() - i,
    {
        if same_chars(&chars_of(list[i].as_str()), name) {
            assert(lv[i as int] == name@);
            return true;
        }
        i = i + 1;
    }
    false
}

/// The branch a checkout of `branch_name` switches to (see `switch_target`),
/// given the local branch names and the remote names.
#[verifier::loop_isolation(false)]
pub fn resolve_switch_target(branch_name: &str, locals: &Vec<String>, remotes: &Vec<String>) -> (r: (String, bool))
    ensures
        (r.0@, r.1) == switch_target(
            branch_name@,
            locals@.map_values(|s: String| s@),
            remotes@.map_values(|s: String| s@),
        ),
{
    let name = chars_of(branch_name);
    if contains_name(locals, &name) {
        return (string_of(&name), false);
    }
    let ghost rv = remotes@.map_values(|s: String| s@);
    let mut i: usize = 0;
    while i < remotes.len()
        invariant
            i <= remotes@.len(),
            rv == remotes@.map_values(|s: String| s@),
            remote_local_name(name@, rv, 0) == remote_local_name(name@, rv, i as int),
        decreases remotes@.len() - i,
    {
        let mut prefix = chars_of(remotes[i].as_str());
        prefix.push('/');
        assert(prefix@ == rv[i as int].push('/'));
        if prefix.len() <= name.len() {
            let mut k: usize = 0;
            let mut same = true;
            while k < prefix.len()
                invariant
                    k <= prefix@.len(),
                    prefix@.len() <= name@.len(),
                    same == (forall|j: int| 0 <= j < k ==> name@[j] == prefix@[j]),
                decreases prefix@.len() - k,
            {
                if name[k] != prefix[k] {
                    same = false;
                }
                k = k + 1;
            }
            if same {
                assert(name@.take(prefix@.len() as int) =~= prefix@);
                let mut local: Vec<char> = Vec::new();
                let mut p: usize = prefix.len();
                while p < name.len()
                    invariant
                        prefix@.len() <= p <= name@.len(),
                        local@ == name@.subrange(prefix@.len() as int, p as int),
                    decreases name@.len() - p,
                {
                    local.push(name[p]);
                    p = p + 1;
                    assert(local@ =~= name@.subrange(prefix@.len() as int, p as int));
                }
                assert(local@ =~= name@.skip(rv[i as int].len() + 1int));
                let track = !contains_name(locals, &local);
                return (string_of(&local), track);
            } else {
                assert(!starts_with(name@, prefix@)) by {
                    if starts_with(name@, prefix@) {
                        assert forall|j: int| 0 <= j < prefix@.len() implies name@[j] == prefix@[j] by {
                            assert(name@.take(prefix@.len() as int)[j] == name@[j]);
                        }
                    }
                }
            }
        }
        i = i + 1;
    }
    (string_of(&name), false)
}

/// The index of the commit a point in time falls on: the first commit of
/// the history (newest first) made at or before `timestamp`.
pub open spec fn first_at_or_before(times: Seq<i64>, timestamp: i64, i: int) -> Option<int>
    decreases times.len() - i,
{
    if i < 0 || i >= times.len() {
        None
    } else if times[i] <= timestamp {
        Some(i)
    } else {
        first_at_or_before(times, timestamp, i + 1)
    }
}

/// The commit the time machine shows is the first one (newest first) made
/// at or before the moment asked for; none is shown only when every commit
/// is later.
pub proof fn law_snapshot_is_first_at_or_before(times: Seq<i64>, timestamp: i64)
    ensures
        first_at_or_before(times, timestamp, 0) matches Some(i) ==> {
            &&& 0 <= i < times.len()
            &&& times[i] <= timestamp
            &&& forall|j: int| 0 <= j < i ==> #[trigger] times[j] > timestamp
        },
        first_at_or_before(times, timestamp, 0) is None <==> forall|j: int| 0 <= j < times.len() ==> #[trigger] times[j] > timestamp,
{
    lemma_first_at_or_before(times, timestamp, 0);
}

proof fn lemma_first_at_or_before(times: Seq<i64>, timestamp: i64, k: int)
    requires
        0 <= k,
    ensures
        first_at_or_before(times, timestamp, k) matches Some(i) ==> {
            &&& k <= i < times.len()
            &&& times[i] <= timestamp
            &&& forall|j: int| k <= j < i ==> #[trigger] times[j] > timestamp
        },
        first_at_or_before(times, timestamp, k) is None <==> forall|j: int| k <= j < times.len() ==> #[trigger] times[j] > timestamp,
    decreases times.len() - k,
{
    if k < times.len() {
        lemma_first_at_or_before(times, timestamp, k + 1);
    }
}

/// The commit (by index into `times`, the commit times newest first) that
/// the time machine shows for `timestamp`.
pub fn snapshot_commit_index(times: &Vec<i64>, timestamp: i64) -> (r: Option<usize>)
    ensures
        match first_at_or_before(times@, timestamp, 0) {
            Some(i) => r == Some(i as usize),
            None => r is None,
        },
{
    let mut i: usize = 0;
    while i < times.len()
        invariant
            i <= times@.len(),
            first_at_or_before(times@, timestamp, 0) == first_at_or_before(times@, timestamp, i as int),
        decreases times@.len() - i,
    {
        if times[i] <= timestamp {
            return Some(i);
        }
        i = i + 1;
    }
    None
}

/// The hook files listed: those whose name does not end in `.sample`.
pub open spec fn listed_hooks(names: Seq<Seq<char>>) -> Seq<Seq<char>>
    decreases names.len(),
{
    if names.len() == 0 {
        seq![]
    } else {
        let r = listed_hooks(names.drop_last());
        if ends_with(names.last(), ".sample"@) {
            r
        } else {
            r.push(names.last())
        }
    }
}

/// The hook files listed among the entries of the hooks directory.
pub fn visible_hooks(names: &Vec<String>) -> (r: Vec<String>)
    ensures
        r@.map_values(|s: String| s@) == listed_hooks(names@.map_values(|s: String| s@)),
{
    let ghost nv = names@.map_values(|s: String| s@);
    let sample = chars_of(".sample");
    let mut r: Vec<String> = Vec::new();
    let mut i: usize = 0;
    while i < names.len()
        invariant
            i <= names@.len(),
            nv == names@.map_values(|s: String| s@),
            sample@ == ".sample"@,
            r@.map_values(|s: String| s@) == listed_hooks(nv.take(i as int)),
        decreases names@.len() - i,
    {
        assert(nv.take(i + 1).drop_last() =~= nv.take(i as int));
        assert(nv.take(i + 1).last() == names@[i as int]@);
        let n = chars_of(names[i].as_str());
        if !ends_with_exec(&n, &sample) {
            let ghost before = r@.map_values(|s: String| s@);
            r.push(string_of(&n));
            assert(r@.map_values(|s: String| s@) =~= before.push(n@));
        }
        i = i + 1;
    }
    assert(nv.take(nv.len() as int) == nv);
    r
}

/// What a checkout does: the branch it switches to, whether a local branch
/// is created to track the remote one, and the reference HEAD then names.
pub struct CheckoutPlan {
    pub target: String,
    pub track: bool,
    pub head_ref: String,
}

/// The checkout of `branch_name`: nothing when it is the branch HEAD
/// already names; otherwise the target of `switch_target`, and HEAD set to
/// `refs/heads/` and the target.
pub fn plan_checkout(current_head: &Option<String>, branch_name: &str, locals: &Vec<String>, remotes: &Vec<String>) -> (r: Option<CheckoutPlan>)
    ensures
        (current_head matches Some(h) && h@ == branch_name@) ==> r is None,
        !(current_head matches Some(h) && h@ == branch_name@) ==> (r matches Some(p) && (p.target@, p.track)
            == switch_target(
            branch_name@,
            locals@.map_values(|s: String| s@),
            remotes@.map_values(|s: String| s@),
        ) && p.head_ref@ == "refs/heads/"@ + p.target@),
{
    let is_current = match current_head {
        Some(h) => same_chars(&chars_of(h.as_str()), &chars_of(branch_name)),
        None => false,
    };
    if is_current {
        return None;
    }
    let (target, track) = resolve_switch_target(branch_name, locals, remotes);
    let mut r = chars_of("refs/heads/");
    append_chars(&mut r, &chars_of(target.as_str()));
    Some(CheckoutPlan { target, track, head_ref: string_of(&r) })
}

/// The status flags that stop a rebase: anything staged (new, modified,
/// deleted, renamed, type-changed), any tracked change in the working tree
/// (modified, deleted, type-changed, renamed), and conflicts.  Untracked
/// and ignored files do not.
pub const REBASE_BLOCKING_FLAGS: u32 = 36639;

/// Whether a status (git2's flag bits) stops a rebase.
pub open spec fn blocks_rebase(bits: u32) -> bool {
    bits & 36639u32 != 0
}

/// Whether any entry of the repository status stops a rebase.
pub fn worktree_blocks_rebase(statuses: &Vec<u32>) -> (r: bool)
    ensures
        r == exists|i: int| 0 <= i < statuses@.len() && blocks_rebase(#[trigger] statuses@[i]),
{
    let mut i: usize = 0;
    while i < statuses.len()
        invariant
            i <= statuses@.len(),
            forall|j: int| 0 <= j < i ==> !blocks_rebase(#[trigger] statuses@[j]),
        decreases statuses@.len() - i,
    {
        if statuses[i] & REBASE_BLOCKING_FLAGS != 0 {
            assert(blocks_rebase(statuses@[i as int]));
            return true;
        }
        i = i + 1;
    }
    false
}

/// An entry of the time machine's file list.
pub struct SnapshotFile {
    pub path: String,
    pub size: usize,
    pub is_directory: bool,
}

/// The time machine's entry for one tree entry: its name (`未知` when git2
/// gives none), whether it is a directory, and its size: 0 for a
/// directory, else the blob's size, 0 when the blob cannot be read.
pub fn snapshot_file(name: Option<String>, is_directory: bool, blob_size: Option<usize>) -> (r: SnapshotFile)
    ensures
        r.path@ == match name {
            Some(n) => n@,
            None => "未知"@,
        },
        r.is_directory == is_directory,
        r.size == if is_directory {
            0
        } else {
            match blob_size {
                Some(n) => n,
                None => 0,
            }
        },
{
    let path = match name {
        Some(n) => n,
        None => string_of(&chars_of("未知")),
    };
    let size: usize = if is_directory {
        0
    } else {
        match blob_size {
            Some(n) => n,
            None => 0,
        }
    };
    SnapshotFile { path, size, is_directory }
}

/// What git2 gives for one entry of a commit's tree: its name, whether it
/// is a directory, and the size of its blob when it could be read.
pub struct TreeEntryFacts {
    pub name: Option<String>,
    pub is_directory: bool,
    pub blob_size: Option<usize>,
}

/// Whether `r` is the time machine's entry for `e` (see `snapshot_file`).
pub open spec fn snapshot_entry(e: TreeEntryFacts, r: SnapshotFile) -> bool {
    &&& r.path@ == match e.name {
        Some(n) => n@,
        None => "未知"@,
    }
    &&& r.is_directory == e.is_directory
    &&& r.size == if e.is_directory {
        0
    } else {
        match e.blob_size {
            Some(n) => n,
            None => 0,
        }
    }
}

fn copy_name(p: &Option<String>) -> (r: Option<String>)
    ensures
        r == *p,
{
    match p {
        Some(s) => Some(s.clone()),
        None => None,
    }
}

/// The time machine's file list: one entry per tree entry, in the order
/// the tree is walked.
pub fn snapshot_files(entries: &Vec<TreeEntryFacts>) -> (r: Vec<SnapshotFile>)
    ensures
        r@.len() == entries@.len(),
        forall|i: int| 0 <= i < entries@.len() ==> snapshot_entry(entries@[i], #[trigger] r@[i]),
{
    let mut r: Vec<SnapshotFile> = Vec::new();
    let mut i: usize = 0;
    while i < entries.len()
        invariant
            i <= entries@.len(),
            r@.len() == i,
            forall|j: int| 0 <= j < i ==> snapshot_entry(entries@[j], #[trigger] r@[j]),
        decreases entries.len() - i,
    {
        let e = &entries[i];
        r.push(snapshot_file(copy_name(&e.name), e.is_directory, e.blob_size));
        i = i + 1;
    }
    r
}

/// Whether the time machine shows a commit made at `time` for the moment
/// `timestamp`: it was made then or before.
pub fn shown_at(time: i64, timestamp: i64) -> (r: bool)
    ensures
        r == (time <= timestamp),
{
    time <= timestamp
}

/// A walk that asks `shown_at` of each commit in turn and stops at the
/// first yes stops at the commit `snapshot_commit_index` picks from the
/// whole list of times.
pub proof fn law_walk_stops_at_the_snapshot_commit(times: Seq<i64>, timestamp: i64, j: int)
    requires
        0 <= j < times.len(),
        times[j] <= timestamp,
        forall|k: int| 0 <= k < j ==> #[trigger] times[k] > timestamp,
    ensures
        first_at_or_before(times, timestamp, 0) == Some(j),
{
    law_snapshot_is_first_at_or_before(times, timestamp);
    if let Some(i) = first_at_or_before(times, timestamp, 0) {
        if i < j {
            assert(times[i] > timestamp);
        } else if i > j {
            assert(times[j] > timestamp);
        }
    } else {
        assert(times[j] > timestamp);
    }
}

/// What the time machine shows: the commit's record and its file list.
pub struct Snapshot {
    pub commit: Commit,
    pub files: Vec<SnapshotFile>,
}

/// The time machine's view of the commit `hash` with git2's author name,
/// message and time and the entries of its tree in walk order: its record
/// (see `commit_record`) and one file-list entry per tree entry.
pub fn snapshot(
    hash: String,
    author: Option<String>,
    message: Option<String>,
    secs: i64,
    entries: &Vec<TreeEntryFacts>,
) -> (r: Snapshot)
    ensures
        commit_record(r.commit, hash@, author, message, secs),
        r.files@.len() == entries@.len(),
        forall|i: int| 0 <= i < entries@.len() ==> snapshot_entry(entries@[i], #[trigger] r.files@[i]),
{
    let commit = make_commit(hash, author, message, secs);
    let files = snapshot_files(entries);
    Snapshot { commit, files }
}

proof fn lemma_remote_from(name: Seq<char>, remotes: Seq<Seq<char>>, i: int, k: int, b: Seq<char>)
    requires
        0 <= i <= k < remotes.len(),
        name == remotes[k] + seq!['/'] + b,
        forall|j: int| i <= j < k ==> !(name.len() > remotes[j].len() && #[trigger] name.take(remotes[j].len() + 1int) == remotes[j].push('/')),
    ensures
        remote_local_name(name, remotes, i) == Some(b),
    decreases k - i,
{
    let p = remotes[i].push('/');
    if i == k {
        assert(name.take(p.len() as int) =~= p);
        assert(name.skip(remotes[i].len() + 1int) =~= b);
    } else {
        if starts_with(name, p) {
            assert(name.take(remotes[i].len() + 1int) == p);
            assert(name.len() > remotes[i].len());
        }
        lemma_remote_from(name, remotes, i + 1, k, b);
    }
}

proof fn lemma_no_remote(name: Seq<char>, remotes: Seq<Seq<char>>, i: int)
    requires
        0 <= i,
        forall|j: int| 0 <= j < remotes.len() ==> !(name.len() > remotes[j].len() && #[trigger] name.take(remotes[j].len() + 1int) == remotes[j].push('/')),
    ensures
        remote_local_name(name, remotes, i) is None,
    decreases remotes.len() - i,
{
    if i < remotes.len() {
        let p = remotes[i].push('/');
        if starts_with(name, p) {
            assert(name.take(remotes[i].len() + 1int) == p);
            if name.len() == remotes[i].len() + 1 {
                assert(name.take(remotes[i].len() + 1int) =~= name);
            }
        }
        lemma_no_remote(name, remotes, i + 1);
    }
}

/// Which branch a checkout switches to, over every list of remotes:
/// an existing local branch is used as it is; a name `r/b` for a remote `r`
/// of the list (the first remote in list order whose `r/` starts the name
/// decides, whichever its place) switches to `b`, creating it when `b` is
/// not a local branch; a name that no remote's `r/` starts is used as it
/// is, with nothing created.
pub proof fn law_checkout_target(name: Seq<char>, locals: Seq<Seq<char>>, remotes: Seq<Seq<char>>, k: int, b: Seq<char>)
    ensures
        locals.contains(name) ==> switch_target(name, locals, remotes) == (name, false),
        (!locals.contains(name) && forall|j: int| 0 <= j < remotes.len() ==> !(name.len() > remotes[j].len()
            && #[trigger] name.take(remotes[j].len() + 1int) == remotes[j].push('/'))) ==> switch_target(name, locals, remotes) == (name, false),
        (!locals.contains(name) && 0 <= k < remotes.len() && name == remotes[k] + seq!['/'] + b && forall|j: int|
            0 <= j < k ==> !(name.len() > remotes[j].len() && #[trigger] name.take(remotes[j].len() + 1int) == remotes[j].push('/')))
            ==> switch_target(name, locals, remotes) == (b, !locals.contains(b)),
{
    if !locals.contains(name) {
        if forall|j: int| 0 <= j < remotes.len() ==> !(name.len() > remotes[j].len()
            && #[trigger] name.take(remotes[j].len() + 1int) == remotes[j].push('/')) {
            lemma_no_remote(name, remotes, 0);
        }
        if 0 <= k < remotes.len() && name == remotes[k] + seq!['/'] + b && forall|j: int|
            0 <= j < k ==> !(name.len() > remotes[j].len() && #[trigger] name.take(remotes[j].len() + 1int) == remotes[j].push('/')) {
            lemma_remote_from(name, remotes, 0, k, b);
        }
    }
}

} // verus!
