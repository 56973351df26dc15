//! Repository analysis: the most often changed files, the contributors with
//! their commit and line counts, the health report, and the Markdown report
//! that puts them together.

use vstd::prelude::*;
use crate::text::{append_chars, chars_of, decimal, decimal_chars, same_chars, string_of};

verus! {

/// The number of commits the analyses look at, newest first.
pub const ANALYSIS_COMMIT_LIMIT: usize = 500;

/// The number of files the hot-file list keeps.
pub const HOT_FILE_LIMIT: usize = 20;

/// The index of the first entry of `t` with key `k`, at or after `i`, or
/// `t.len()` when there is none.
pub open spec fn key_index<V>(t: Seq<(Seq<char>, V)>, k: Seq<char>, i: int) -> int
    decreases t.len() - i,
{
    if i < 0 || i >= t.len() {
        t.len() as int
    } else if t[i].0 == k {
        i
    } else {
        key_index(t, k, i + 1)
    }
}

pub proof fn lemma_key_index<V>(t: Seq<(Seq<char>, V)>, k: Seq<char>, i: int)
    requires
        0 <= i <= t.len(),
    ensures
        i <= key_index(t, k, i) <= t.len(),
        key_index(t, k, i) < t.len() ==> t[key_index(t, k, i)].0 == k,
        forall|j: int| i <= j < key_index(t, k, i) ==> t[j].0 != k,
    decreases t.len() - i,
{
    if i < t.len() && t[i].0 != k {
        lemma_key_index(t, k, i + 1);
    }
}

/// The counts after one more occurrence of `k`: its count goes up by one,
/// or it is added at the end with count 1.
pub open spec fn tally_one(t: Seq<(Seq<char>, int)>, k: Seq<char>) -> Seq<(Seq<char>, int)> {
    let i = key_index(t, k, 0);
    if i < t.len() {
        t.update(i, (k, t[i].1 + 1))
    } else {
        t.push((k, 1))
    }
}

/// How often each key occurs in `ks`, keys in order of first occurrence.
pub open spec fn tally(ks: Seq<Seq<char>>) -> Seq<(Seq<char>, int)>
    decreases ks.len(),
{
    if ks.len() == 0 {
        seq![]
    } else {
        tally_one(tally(ks.drop_last()), ks.last())
    }
}

/// `x` placed into `sorted` after every entry whose key is at least its
/// own (a stable descending insertion).
pub open spec fn insert_desc<T>(sorted: Seq<T>, x: T, key: spec_fn(T) -> int) -> Seq<T>
    decreases sorted.len(),
{
    if sorted.len() == 0 {
        seq![x]
    } else if key(sorted.last()) >= key(x) {
        sorted.push(x)
    } else {
        insert_desc(sorted.drop_last(), x, key).push(sorted.last())
    }
}

/// `t` sorted by `key`, largest first; entries with equal keys keep their
/// order.
pub open spec fn sort_desc<T>(t: Seq<T>, key: spec_fn(T) -> int) -> Seq<T>
    decreases t.len(),
{
    if t.len() == 0 {
        seq![]
    } else {
        insert_desc(sort_desc(t.drop_last(), key), t.last(), key)
    }
}

/// The count of a `(key, count)` entry.
pub open spec fn count_key(e: (Seq<char>, int)) -> int {
    e.1
}

/// All items of the lists `ls`, one list after another.
pub open spec fn flatten_lists(ls: Seq<Seq<Seq<char>>>) -> Seq<Seq<char>>
    decreases ls.len(),
{
    if ls.len() == 0 {
        seq![]
    } else {
        flatten_lists(ls.drop_last()) + ls.last()
    }
}

/// The first `n` items of `s`, or all of them when there are fewer.
pub open spec fn first_n<A>(s: Seq<A>, n: int) -> Seq<A> {
    if s.len() > n {
        s.take(n)
    } else {
        s
    }
}

/// What a walk keeps when each step may add one item and the walk stops
/// once `cap` items are kept: `Some` items are added, in order, until
/// there are `cap`.
pub open spec fn capped_walk<A>(steps: Seq<Option<A>>, cap: int) -> Seq<A>
    decreases steps.len(),
{
    if steps.len() == 0 {
        seq![]
    } else {
        let kept = capped_walk(steps.drop_last(), cap);
        if kept.len() >= cap {
            kept
        } else {
            match steps.last() {
                Some(x) => kept.push(x),
                None => kept,
            }
        }
    }
}

/// The `Some` items of `steps`, in order.
pub open spec fn somes<A>(steps: Seq<Option<A>>) -> Seq<A>
    decreases steps.len(),
{
    if steps.len() == 0 {
        seq![]
    } else {
        match steps.last() {
            Some(x) => somes(steps.drop_last()).push(x),
            None => somes(steps.drop_last()),
        }
    }
}

/// A walk that stops once `cap` items are kept keeps exactly the first
/// `cap` items offered (all of them when fewer are offered).
pub proof fn law_capped_walk_keeps_the_first<A>(steps: Seq<Option<A>>, cap: int)
    requires
        cap >= 0,
    ensures
        capped_walk(steps, cap) == first_n(somes(steps), cap),
    decreases steps.len(),
{
    if steps.len() > 0 {
        let d = steps.drop_last();
        law_capped_walk_keeps_the_first(d, cap);
        let sd = somes(d);
        match steps.last() {
            Some(x) => {
                if sd.len() >= cap {
                    assert(sd.push(x).take(cap) =~= sd.take(cap));
                }
            },
            None => {},
        }
    }
}

/// The hot-file list: how often each path changed in the first 500
/// commits, most changed first (ties in order of first appearance), the
/// first 20 kept.
pub open spec fn hot_files_of(commit_paths: Seq<Seq<Seq<char>>>) -> Seq<(Seq<char>, int)> {
    first_n(sort_desc(tally(flatten_lists(first_n(commit_paths, 500))), |e: (Seq<char>, int)| count_key(e)), 20)
}

/// A file of the hot-file list.
pub struct HotFile {
    pub path: String,
    pub changes: usize,
}

pub open spec fn hot_view(h: HotFile) -> (Seq<char>, int) {
    (h.path@, h.changes as int)
}

pub open spec fn strings_view(v: Vec<String>) -> Seq<Seq<char>> {
    v@.map_values(|s: String| s@)
}

proof fn lemma_tally_bounds(ks: Seq<Seq<char>>)
    ensures
        forall|i: int| 0 <= i < tally(ks).len() ==> 1 <= #[trigger] tally(ks)[i].1 <= ks.len(),
        tally(ks).len() <= ks.len(),
    decreases ks.len(),
{
    if ks.len() > 0 {
        lemma_tally_bounds(ks.drop_last());
        lemma_key_index(tally(ks.drop_last()), ks.last(), 0);
    }
}

/// How often each key occurs, keys in order of first occurrence.
fn tally_exec(ks: &Vec<Vec<char>>) -> (r: Vec<(Vec<char>, usize)>)
    ensures
        r@.map_values(|e: (Vec<char>, usize)| (e.0@, e.1 as int)) == tally(ks.deep_view()),
{
    let ghost kv = ks.deep_view();
    let mut t: Vec<(Vec<char>, usize)> = Vec::new();
    let mut i: usize = 0;
    assert(kv.take(0) =~= Seq::<Seq<char>>::empty());
    assert(t@.map_values(|e: (Vec<char>, usize)| (e.0@, e.1 as int)) =~= Seq::<(Seq<char>, int)>::empty());
    while i < ks.len()
        invariant
            i <= ks@.len(),
            kv == ks.deep_view(),
            t@.map_values(|e: (Vec<char>, usize)| (e.0@, e.1 as int)) == tally(kv.take(i as int)),
        decreases ks@.len() - i,
    {
        let ghost tv = t@.map_values(|e: (Vec<char>, usize)| (e.0@, e.1 as int));
        let k = &ks[i];
        assert(k.deep_view() =~= k@);
        assert(kv.take(i + 1).drop_last() =~= kv.take(i as int));
        assert(kv.take(i + 1).last() == k@);
        proof {
            lemma_tally_bounds(kv.take(i as int));
            lemma_key_index(tv, k@, 0);
        }
        let mut j: usize = 0;
        while j < t.len() && !same_chars(&t[j].0, k)
            invariant
                j <= t@.len(),
                tv == t@.map_values(|e: (Vec<char>, usize)| (e.0@, e.1 as int)),
                key_index(tv, k@, 0) == key_index(tv, k@, j as int),
            decreases t@.len() - j,
        {
            j = j + 1;
        }
        if j < t.len() {
            let c = t[j].1;
            let mut key: Vec<char> = Vec::new();
            append_chars(&mut key, k);
            t.set(j, (key, c + 1));
            assert(t@.map_values(|e: (Vec<char>, usize)| (e.0@, e.1 as int)) =~= tv.update(
                j as int,
                (k@, tv[j as int].1 + 1),
            ));
        } else {
            let mut key: Vec<char> = Vec::new();
            append_chars(&mut key, k);
            t.push((key, 1));
            assert(t@.map_values(|e: (Vec<char>, usize)| (e.0@, e.1 as int)) =~= tv.push((k@, 1)));
        }
        i = i + 1;
    }
    assert(kv.take(kv.len() as int) == kv);
    t
}

/// Where `insert_desc` places `x`: after the last entry whose key is at
/// least `x`'s, when the keys of `sorted` from there on are smaller.
proof fn lemma_insert_desc_at<T>(sorted: Seq<T>, x: T, key: spec_fn(T) -> int, j: int)
    requires
        0 <= j <= sorted.len(),
        forall|k: int| j <= k < sorted.len() ==> key(#[trigger] sorted[k]) < key(x),
        j > 0 ==> key(sorted[j - 1]) >= key(x),
    ensures
        insert_desc(sorted, x, key) == sorted.insert(j, x),
    decreases sorted.len(),
{
    if sorted.len() == 0 {
        assert(sorted.insert(j, x) =~= seq![x]);
    } else if key(sorted.last()) >= key(x) {
        assert(j == sorted.len());
        assert(sorted.insert(j, x) =~= sorted.push(x));
    } else {
        lemma_insert_desc_at(sorted.drop_last(), x, key, j);
        assert(sorted.insert(j, x) =~= sorted.drop_last().insert(j, x).push(sorted.last()));
    }
}

/// Sorts `t` by count, largest first, keeping the order of equal counts.
fn sort_desc_exec(t: &Vec<(Vec<char>, usize)>) -> (r: Vec<(Vec<char>, usize)>)
    ensures
        r@.map_values(|e: (Vec<char>, usize)| (e.0@, e.1 as int)) == sort_desc(
            t@.map_values(|e: (Vec<char>, usize)| (e.0@, e.1 as int)),
            |e: (Seq<char>, int)| count_key(e),
        ),
{
    let ghost tv = t@.map_values(|e: (Vec<char>, usize)| (e.0@, e.1 as int));
    let mut sorted: Vec<(Vec<char>, usize)> = Vec::new();
    let mut i: usize = 0;
    assert(tv.take(0) =~= Seq::<(Seq<char>, int)>::empty());
    assert(sorted@.map_values(|e: (Vec<char>, usize)| (e.0@, e.1 as int)) =~= Seq::<
        (Seq<char>, int),
    >::empty());
    while i < t.len()
        invariant
            i <= t@.len(),
            tv == t@.map_values(|e: (Vec<char>, usize)| (e.0@, e.1 as int)),
            sorted@.map_values(|e: (Vec<char>, usize)| (e.0@, e.1 as int)) == sort_desc(
                tv.take(i as int),
                |e: (Seq<char>, int)| count_key(e),
            ),
        decreases t@.len() - i,
    {
        let ghost sv = sorted@.map_values(|e: (Vec<char>, usize)| (e.0@, e.1 as int));
        let c = t[i].1;
        let mut key: Vec<char> = Vec::new();
        append_chars(&mut key, &t[i].0);
        let mut j: usize = sorted.len();
        while j > 0 && sorted[j - 1].1 < c
            invariant
                j <= sorted@.len(),
                sv == sorted@.map_values(|e: (Vec<char>, usize)| (e.0@, e.1 as int)),
                forall|k: int| j <= k < sv.len() ==> sv[k].1 < c,
            decreases j,
        {
            j = j - 1;
        }
        let ghost x = (key@, c as int);
        assert(x == tv[i as int]);
        proof {
            lemma_insert_desc_at(sv, x, |e: (Seq<char>, int)| count_key(e), j as int);
        }
        sorted.insert(j, (key, c));
        assert(sorted@.map_values(|e: (Vec<char>, usize)| (e.0@, e.1 as int)) =~= sv.insert(
            j as int,
            x,
        ));
        assert(tv.take(i + 1).drop_last() =~= tv.take(i as int));
        i = i + 1;
    }
    assert(tv.take(tv.len() as int) =~= tv);
    sorted
}

/// The paths of `commit_paths` as character sequences, one list per commit.
pub open spec fn commit_paths_view(commit_paths: Seq<Vec<String>>) -> Seq<Seq<Seq<char>>> {
    commit_paths.map_values(|c: Vec<String>| strings_view(c))
}

/// The hot-file list from the changed paths of each commit, newest commit
/// first: how often each path changed in the first 500 commits, most
/// changed first, at most 20 files.
pub fn hot_files(commit_paths: &Vec<Vec<String>>) -> (r: Vec<HotFile>)
    ensures
        r@.map_values(|h: HotFile| hot_view(h)) == hot_files_of(commit_paths_view(commit_paths@)),
{
    let ghost cpv = commit_paths_view(commit_paths@);
    let limit: usize = if commit_paths.len() > ANALYSIS_COMMIT_LIMIT {
        ANALYSIS_COMMIT_LIMIT
    } else {
        commit_paths.len()
    };
    assert(first_n(cpv, 500) =~= cpv.take(limit as int));
    let mut ks: Vec<Vec<char>> = Vec::new();
    let mut i: usize = 0;
    assert(cpv.take(0) =~= Seq::<Seq<Seq<char>>>::empty());
    assert(ks.deep_view() =~= Seq::<Seq<char>>::empty());
    while i < limit
        invariant
            limit <= commit_paths@.len(),
            i <= limit,
            cpv == commit_paths_view(commit_paths@),
            ks.deep_view() == flatten_lists(cpv.take(i as int)),
        decreases limit - i,
    {
        let paths = &commit_paths[i];
        let ghost before = ks.deep_view();
        let mut j: usize = 0;
        while j < paths.len()
            invariant
                j <= paths@.len(),
                paths@.map_values(|s: String| s@) == cpv[i as int],
                ks.deep_view() == before + cpv[i as int].take(j as int),
            decreases paths@.len() - j,
        {
            let ghost prev = ks.deep_view();
            let k = chars_of(paths[j].as_str());
            assert(k.deep_view() =~= k@);
            ks.push(k);
            assert(ks.deep_view() =~= prev.push(k@));
            assert(cpv[i as int].take(j + 1) =~= cpv[i as int].take(j as int).push(k@));
            j = j + 1;
        }
        assert(cpv[i as int].take(paths@.len() as int) =~= cpv[i as int]);
        assert(cpv.take(i + 1).drop_last() =~= cpv.take(i as int));
        i = i + 1;
    }
    let counts = tally_exec(&ks);
    let sorted = sort_desc_exec(&counts);
    let ghost sv = sorted@.map_values(|e: (Vec<char>, usize)| (e.0@, e.1 as int));
    let keep: usize = if sorted.len() > HOT_FILE_LIMIT {
        HOT_FILE_LIMIT
    } else {
        sorted.len()
    };
    assert(first_n(sv, 20) =~= sv.take(keep as int));
    let mut r: Vec<HotFile> = Vec::new();
    let mut m: usize = 0;
    while m < keep
        invariant
            keep <= sorted@.len(),
            m <= keep,
            sv == sorted@.map_values(|e: (Vec<char>, usize)| (e.0@, e.1 as int)),
            r@.map_values(|h: HotFile| hot_view(h)) == sv.take(m as int),
        decreases keep - m,
    {
        let ghost prev = r@.map_values(|h: HotFile| hot_view(h));
        let h = HotFile { path: string_of(&sorted[m].0), changes: sorted[m].1 };
        r.push(h);
        assert(r@.map_values(|h: HotFile| hot_view(h)) =~= prev.push(sv[m as int]));
        assert(sv.take(m + 1) =~= sv.take(m as int).push(sv[m as int]));
        m = m + 1;
    }
    r
}

/// How many of the characters of `s` are `c`.
pub open spec fn count_char(s: Seq<char>, c: char) -> int
    decreases s.len(),
{
    if s.len() == 0 {
        0
    } else {
        count_char(s.drop_last(), c) + if s.last() == c {
            1int
        } else {
            0int
        }
    }
}

proof fn lemma_count_char_bound(s: Seq<char>, c: char)
    ensures
        0 <= count_char(s, c) <= s.len(),
    decreases s.len(),
{
    if s.len() > 0 {
        lemma_count_char_bound(s.drop_last(), c);
    }
}

/// The added and removed lines among the origin marks of a diff's lines:
/// how many are `+` and how many are `-`.
pub fn line_origin_counts(origins: &Vec<char>) -> (r: (usize, usize))
    ensures
        r.0 as int == count_char(origins@, '+'),
        r.1 as int == count_char(origins@, '-'),
{
    let mut add: usize = 0;
    let mut del: usize = 0;
    let mut i: usize = 0;
    while i < origins.len()
        invariant
            i <= origins@.len(),
            add as int == count_char(origins@.take(i as int), '+'),
            del as int == count_char(origins@.take(i as int), '-'),
        decreases origins@.len() - i,
    {
        assert(origins@.take(i + 1).drop_last() =~= origins@.take(i as int));
        proof {
            lemma_count_char_bound(origins@.take(i as int), '+');
            lemma_count_char_bound(origins@.take(i as int), '-');
        }
        if origins[i] == '+' {
            add = add + 1;
        } else if origins[i] == '-' {
            del = del + 1;
        }
        i = i + 1;
    }
    assert(origins@.take(origins@.len() as int) =~= origins@);
    (add, del)
}

/// One commit as the contributor statistics see it: its author's name and
/// e-mail as git2 gives them, and its added and removed lines.
pub struct CommitAuthorship {
    pub author: Option<String>,
    pub email: Option<String>,
    pub additions: usize,
    pub deletions: usize,
}

/// The name (`未知` when there is none), the e-mail (empty when there is
/// none), and the added and removed lines of a commit.
pub open spec fn authorship_view(c: CommitAuthorship) -> (Seq<char>, Seq<char>, int, int) {
    (
        match c.author {
            Some(a) => a@,
            None => "未知"@,
        },
        match c.email {
            Some(e) => e@,
            None => Seq::<char>::empty(),
        },
        c.additions as int,
        c.deletions as int,
    )
}

/// A contributor: name, the e-mail of their first counted commit, and
/// their commits, added lines and removed lines.
pub struct Contributor {
    pub author: String,
    pub email: String,
    pub commits: usize,
    pub additions: usize,
    pub deletions: usize,
}

pub open spec fn contributor_view(c: Contributor) -> (Seq<char>, (Seq<char>, int, int, int)) {
    (c.author@, (c.email@, c.commits as int, c.additions as int, c.deletions as int))
}

/// The statistics after one more commit: its author's row counts one more
/// commit and its lines, or a new row is added at the end with the
/// commit's e-mail.
pub open spec fn credit_one(
    t: Seq<(Seq<char>, (Seq<char>, int, int, int))>,
    c: (Seq<char>, Seq<char>, int, int),
) -> Seq<(Seq<char>, (Seq<char>, int, int, int))> {
    let i = key_index(t, c.0, 0);
    if i < t.len() {
        t.update(i, (c.0, (t[i].1.0, t[i].1.1 + 1, t[i].1.2 + c.2, t[i].1.3 + c.3)))
    } else {
        t.push((c.0, (c.1, 1, c.2, c.3)))
    }
}

/// The per-author statistics of `cs`, authors in order of first commit.
pub open spec fn credit(cs: Seq<(Seq<char>, Seq<char>, int, int)>) -> Seq<(Seq<char>, (Seq<char>, int, int, int))>
    decreases cs.len(),
{
    if cs.len() == 0 {
        seq![]
    } else {
        credit_one(credit(cs.drop_last()), cs.last())
    }
}

/// The commit count of a contributor row.
pub open spec fn commits_key(r: (Seq<char>, (Seq<char>, int, int, int))) -> int {
    r.1.1
}

/// The contributor list: the per-author statistics of the first 500
/// commits, most commits first.
pub open spec fn contributors_of(cs: Seq<(Seq<char>, Seq<char>, int, int)>) -> Seq<(Seq<char>, (Seq<char>, int, int, int))> {
    sort_desc(credit(first_n(cs, 500)), |r: (Seq<char>, (Seq<char>, int, int, int))| commits_key(r))
}

/// Whether every author's added and removed lines fit in a `usize`.
pub open spec fn totals_fit(rows: Seq<(Seq<char>, (Seq<char>, int, int, int))>) -> bool {
    forall|k: int| 0 <= k < rows.len() ==> (#[trigger] rows[k]).1.2 <= usize::MAX && rows[k].1.3 <= usize::MAX
}

/// The rows of `a` stand at the start of `b`, for the same authors, with no
/// fewer lines.
pub open spec fn grows_into(a: Seq<(Seq<char>, (Seq<char>, int, int, int))>, b: Seq<(Seq<char>, (Seq<char>, int, int, int))>) -> bool {
    &&& a.len() <= b.len()
    &&& forall|k: int| 0 <= k < a.len() ==> (#[trigger] a[k]).0 == b[k].0 && a[k].1.2 <= b[k].1.2 && a[k].1.3 <= b[k].1.3
}

proof fn lemma_credit_bounds(cs: Seq<(Seq<char>, Seq<char>, int, int)>)
    ensures
        forall|k: int| 0 <= k < credit(cs).len() ==> 1 <= (#[trigger] credit(cs)[k]).1.1 <= cs.len(),
    decreases cs.len(),
{
    if cs.len() > 0 {
        lemma_credit_bounds(cs.drop_last());
        lemma_key_index(credit(cs.drop_last()), cs.last().0, 0);
    }
}

/// Counting more commits only adds rows at the end and lines to rows.
proof fn lemma_credit_grows(cs: Seq<(Seq<char>, Seq<char>, int, int)>, i: int, n: int)
    requires
        0 <= i <= n <= cs.len(),
        forall|k: int| 0 <= k < cs.len() ==> 0 <= (#[trigger] cs[k]).2 && 0 <= cs[k].3,
    ensures
        grows_into(credit(cs.take(i)), credit(cs.take(n))),
    decreases n - i,
{
    if i < n {
        lemma_credit_grows(cs, i, n - 1);
        assert(cs.take(n).drop_last() =~= cs.take(n - 1));
        assert(cs.take(n).last() == cs[n - 1]);
        let a = credit(cs.take(n - 1));
        lemma_key_index(a, cs[n - 1].0, 0);
    }
}

pub open spec fn authorship_views(cs: Seq<CommitAuthorship>) -> Seq<(Seq<char>, Seq<char>, int, int)> {
    cs.map_values(|c: CommitAuthorship| authorship_view(c))
}

pub open spec fn row_view(e: (Vec<char>, (Vec<char>, usize, usize, usize))) -> (Seq<char>, (Seq<char>, int, int, int)) {
    (e.0@, (e.1.0@, e.1.1 as int, e.1.2 as int, e.1.3 as int))
}

/// The per-author rows of the first `limit` commits, authors in order of
/// first commit.
fn credit_exec(commits: &Vec<CommitAuthorship>, limit: usize) -> (r: Vec<(Vec<char>, (Vec<char>, usize, usize, usize))>)
    requires
        limit <= commits@.len(),
        totals_fit(credit(authorship_views(commits@).take(limit as int))),
    ensures
        r@.map_values(|e: (Vec<char>, (Vec<char>, usize, usize, usize))| row_view(e)) == credit(
            authorship_views(commits@).take(limit as int),
        ),
{
    let ghost cv = authorship_views(commits@);
    let mut rows: Vec<(Vec<char>, (Vec<char>, usize, usize, usize))> = Vec::new();
    let mut i: usize = 0;
    assert(cv.take(0) =~= Seq::<(Seq<char>, Seq<char>, int, int)>::empty());
    assert(rows@.map_values(|e: (Vec<char>, (Vec<char>, usize, usize, usize))| row_view(e))
        =~= Seq::<(Seq<char>, (Seq<char>, int, int, int))>::empty());
    while i < limit
        invariant
            limit <= commits@.len(),
            i <= limit,
            cv == authorship_views(commits@),
            totals_fit(credit(cv.take(limit as int))),
            rows@.map_values(|e: (Vec<char>, (Vec<char>, usize, usize, usize))| row_view(e))
                == credit(cv.take(i as int)),
        decreases limit - i,
    {
        let ghost rv = rows@.map_values(|e: (Vec<char>, (Vec<char>, usize, usize, usize))| row_view(e));
        let c = &commits[i];
        let name = match &c.author {
            Some(a) => chars_of(a.as_str()),
            None => chars_of("未知"),
        };
        let email = match &c.email {
            Some(e) => chars_of(e.as_str()),
            None => Vec::new(),
        };
        let ghost cview = (name@, email@, c.additions as int, c.deletions as int);
        assert(cview == cv[i as int]);
        assert(cv.take(i + 1).drop_last() =~= cv.take(i as int));
        assert(cv.take(i + 1).last() == cv[i as int]);
        proof {
            assert forall|k: int| 0 <= k < cv.len() implies 0 <= (#[trigger] cv[k]).2 && 0 <= cv[k].3 by {}
            lemma_credit_bounds(cv.take(i as int));
            lemma_key_index(rv, name@, 0);
            lemma_credit_grows(cv, i + 1, limit as int);
        }
        let mut j: usize = 0;
        while j < rows.len() && !same_chars(&rows[j].0, &name)
            invariant
                j <= rows@.len(),
                rv == rows@.map_values(|e: (Vec<char>, (Vec<char>, usize, usize, usize))| row_view(e)),
                key_index(rv, name@, 0) == key_index(rv, name@, j as int),
            decreases rows@.len() - j,
        {
            j = j + 1;
        }
        if j < rows.len() {
            let commits_so_far = rows[j].1.1;
            let adds = rows[j].1.2;
            let dels = rows[j].1.3;
            proof {
                let nxt = credit(cv.take(i + 1));
                let fin = credit(cv.take(limit as int));
                assert(nxt == credit_one(rv, cview));
                assert(nxt[j as int].1.2 == adds + c.additions);
                assert(nxt[j as int].1.3 == dels + c.deletions);
                assert(nxt[j as int].1.2 <= fin[j as int].1.2);
                assert(fin[j as int].1.2 <= usize::MAX);
            }
            let mut first_email: Vec<char> = Vec::new();
            append_chars(&mut first_email, &rows[j].1.0);
            let row = (name, (first_email, commits_so_far + 1, adds + c.additions, dels + c.deletions));
            rows.set(j, row);
            assert(rows@.map_values(|e: (Vec<char>, (Vec<char>, usize, usize, usize))| row_view(e))
                =~= credit_one(rv, cview));
        } else {
            rows.push((name, (email, 1, c.additions, c.deletions)));
            assert(rows@.map_values(|e: (Vec<char>, (Vec<char>, usize, usize, usize))| row_view(e))
                =~= credit_one(rv, cview));
        }
        i = i + 1;
    }
    rows
}

/// The contributor list from the authorship of each commit, newest commit
/// first: the per-author statistics of the first 500 commits, most commits
/// first.  Each author's added and removed lines must fit in a `usize`.
pub fn contributors(commits: &Vec<CommitAuthorship>) -> (r: Vec<Contributor>)
    requires
        totals_fit(credit(first_n(authorship_views(commits@), 500))),
    ensures
        r@.map_values(|c: Contributor| contributor_view(c)) == contributors_of(
            authorship_views(commits@),
        ),
{
    let ghost cv = authorship_views(commits@);
    let limit: usize = if commits.len() > ANALYSIS_COMMIT_LIMIT {
        ANALYSIS_COMMIT_LIMIT
    } else {
        commits.len()
    };
    assert(first_n(cv, 500) =~= cv.take(limit as int));
    let rows = credit_exec(commits, limit);
    let ghost rv = rows@.map_values(|e: (Vec<char>, (Vec<char>, usize, usize, usize))| row_view(e));
    let mut out: Vec<Contributor> = Vec::new();
    let mut i: usize = 0;
    assert(rv.take(0) =~= Seq::<(Seq<char>, (Seq<char>, int, int, int))>::empty());
    assert(out@.map_values(|c: Contributor| contributor_view(c)) =~= Seq::<
        (Seq<char>, (Seq<char>, int, int, int)),
    >::empty());
    while i < rows.len()
        invariant
            i <= rows@.len(),
            rv == rows@.map_values(|e: (Vec<char>, (Vec<char>, usize, usize, usize))| row_view(e)),
            out@.map_values(|c: Contributor| contributor_view(c)) == sort_desc(
                rv.take(i as int),
                |r: (Seq<char>, (Seq<char>, int, int, int))| commits_key(r),
            ),
        decreases rows@.len() - i,
    {
        let ghost ov = out@.map_values(|c: Contributor| contributor_view(c));
        let row = &rows[i];
        let n = row.1.1;
        let entry = Contributor {
            author: string_of(&row.0),
            email: string_of(&row.1.0),
            commits: n,
            additions: row.1.2,
            deletions: row.1.3,
        };
        let mut j: usize = out.len();
        while j > 0 && out[j - 1].commits < n
            invariant
                j <= out@.len(),
                ov == out@.map_values(|c: Contributor| contributor_view(c)),
                forall|k: int| j <= k < ov.len() ==> ov[k].1.1 < n,
            decreases j,
        {
            j = j - 1;
        }
        let ghost x = contributor_view(entry);
        assert(x == rv[i as int]);
        proof {
            lemma_insert_desc_at(ov, x, |r: (Seq<char>, (Seq<char>, int, int, int))| commits_key(r), j as int);
        }
        out.insert(j, entry);
        assert(out@.map_values(|c: Contributor| contributor_view(c)) =~= ov.insert(j as int, x));
        assert(rv.take(i + 1).drop_last() =~= rv.take(i as int));
        i = i + 1;
    }
    assert(rv.take(rv.len() as int) =~= rv);
    out
}

/// Whether `s` is ordered by `key`, largest first.
pub open spec fn sorted_desc<T>(s: Seq<T>, key: spec_fn(T) -> int) -> bool {
    forall|i: int, j: int| 0 <= i <= j < s.len() ==> key(#[trigger] s[i]) >= key(#[trigger] s[j])
}

/// The keys of a list of keyed entries.
pub open spec fn keys_of<V>(t: Seq<(Seq<char>, V)>) -> Seq<Seq<char>> {
    t.map_values(|e: (Seq<char>, V)| e.0)
}

/// The sum of `key` over `s`.
pub open spec fn key_sum<T>(s: Seq<T>, key: spec_fn(T) -> int) -> int
    decreases s.len(),
{
    if s.len() == 0 {
        0
    } else {
        key_sum(s.drop_last(), key) + key(s.last())
    }
}

proof fn lemma_insert_desc_shape<T>(s: Seq<T>, x: T, key: spec_fn(T) -> int) -> (j: int)
    ensures
        0 <= j <= s.len(),
        insert_desc(s, x, key) == s.insert(j, x),
    decreases s.len(),
{
    if s.len() == 0 {
        assert(s.insert(0, x) =~= seq![x]);
        0
    } else if key(s.last()) >= key(x) {
        assert(s.insert(s.len() as int, x) =~= s.push(x));
        s.len() as int
    } else {
        let j = lemma_insert_desc_shape(s.drop_last(), x, key);
        assert(s.insert(j, x) =~= s.drop_last().insert(j, x).push(s.last()));
        j
    }
}

proof fn lemma_insert_desc_sorted<T>(s: Seq<T>, x: T, key: spec_fn(T) -> int)
    requires
        sorted_desc(s, key),
    ensures
        sorted_desc(insert_desc(s, x, key), key),
    decreases s.len(),
{
    if s.len() == 0 {
    } else if key(s.last()) >= key(x) {
        let r = s.push(x);
        assert forall|i: int, j: int| 0 <= i <= j < r.len() implies key(#[trigger] r[i]) >= key(
            #[trigger] r[j],
        ) by {
            if j == s.len() {
                assert(r[i] == s[i] || i == s.len());
                if i < s.len() {
                    assert(key(s[i]) >= key(s[s.len() - 1]));
                }
            } else {
                assert(r[i] == s[i] && r[j] == s[j]);
            }
        }
    } else {
        let d = s.drop_last();
        assert(sorted_desc(d, key)) by {
            assert forall|i: int, j: int| 0 <= i <= j < d.len() implies key(#[trigger] d[i]) >= key(
                #[trigger] d[j],
            ) by {
                assert(d[i] == s[i] && d[j] == s[j]);
            }
        }
        lemma_insert_desc_sorted(d, x, key);
        let jj = lemma_insert_desc_shape(d, x, key);
        let r = insert_desc(d, x, key);
        d.insert_ensures(jj, x);
        assert forall|k: int| 0 <= k < r.len() implies key(#[trigger] r[k]) >= key(s.last()) by {
            if k < jj {
                assert(r[k] == s[k]);
                assert(key(s[k]) >= key(s[s.len() - 1]));
            } else if k > jj {
                assert(r[k] == s[k - 1]);
                assert(key(s[k - 1]) >= key(s[s.len() - 1]));
            }
        }
        let rr = r.push(s.last());
        assert forall|i: int, j: int| 0 <= i <= j < rr.len() implies key(#[trigger] rr[i]) >= key(
            #[trigger] rr[j],
        ) by {
            if j == r.len() {
                if i < r.len() {
                    assert(key(r[i]) >= key(s.last()));
                }
            } else {
                assert(rr[i] == r[i] && rr[j] == r[j]);
            }
        }
    }
}

proof fn lemma_insert_desc_sum<T>(s: Seq<T>, x: T, key: spec_fn(T) -> int)
    ensures
        key_sum(insert_desc(s, x, key), key) == key_sum(s, key) + key(x),
    decreases s.len(),
{
    assert(key_sum(Seq::<T>::empty(), key) == 0);
    if s.len() == 0 {
        assert(seq![x].drop_last() =~= Seq::<T>::empty());
        assert(key_sum(seq![x], key) == key_sum(Seq::<T>::empty(), key) + key(x));
    } else if key(s.last()) >= key(x) {
        assert(s.push(x).drop_last() =~= s);
    } else {
        lemma_insert_desc_sum(s.drop_last(), x, key);
        let r = insert_desc(s.drop_last(), x, key);
        assert(r.push(s.last()).drop_last() =~= r);
    }
}

/// Sorting keeps the entries: the same length, the same elements, and no
/// element twice where there was none twice; the result is ordered and
/// the sum of the keys is unchanged.
pub proof fn lemma_sort_desc_facts<T>(t: Seq<T>, key: spec_fn(T) -> int)
    ensures
        sort_desc(t, key).len() == t.len(),
        sorted_desc(sort_desc(t, key), key),
        forall|y: T| #[trigger] sort_desc(t, key).contains(y) <==> t.contains(y),
        t.no_duplicates() ==> sort_desc(t, key).no_duplicates(),
        key_sum(sort_desc(t, key), key) == key_sum(t, key),
    decreases t.len(),
{
    if t.len() > 0 {
        let d = t.drop_last();
        let x = t.last();
        lemma_sort_desc_facts(d, key);
        let sd = sort_desc(d, key);
        lemma_insert_desc_sorted(sd, x, key);
        lemma_insert_desc_sum(sd, x, key);
        let j = lemma_insert_desc_shape(sd, x, key);
        let r = sd.insert(j, x);
        sd.insert_ensures(j, x);
        assert forall|y: T| #[trigger] r.contains(y) <==> t.contains(y) by {
            if r.contains(y) {
                let k = choose|k: int| 0 <= k < r.len() && r[k] == y;
                if k < j {
                    assert(sd[k] == y);
                    assert(sd.contains(y));
                    let a = choose|a: int| 0 <= a < d.len() && d[a] == y;
                    assert(t[a] == y);
                } else if k == j {
                    assert(t[t.len() - 1] == y);
                } else {
                    assert(sd[k - 1] == y);
                    assert(sd.contains(y));
                    let a = choose|a: int| 0 <= a < d.len() && d[a] == y;
                    assert(t[a] == y);
                }
            }
            if t.contains(y) {
                let a = choose|a: int| 0 <= a < t.len() && t[a] == y;
                if a == t.len() - 1 {
                    assert(r[j] == y);
                } else {
                    assert(d[a] == y);
                    assert(d.contains(y));
                    assert(sd.contains(y));
                    let k = choose|k: int| 0 <= k < sd.len() && sd[k] == y;
                    if k < j {
                        assert(r[k] == y);
                    } else {
                        assert(r[k + 1] == y);
                    }
                }
            }
        }
        if t.no_duplicates() {
            assert(d.no_duplicates()) by {
                assert forall|a: int, b: int| 0 <= a < d.len() && 0 <= b < d.len() && a != b implies d[a]
                    != d[b] by {
                    assert(d[a] == t[a] && d[b] == t[b]);
                }
            }
            assert(!sd.contains(x)) by {
                if sd.contains(x) {
                    let a = choose|a: int| 0 <= a < d.len() && d[a] == x;
                    assert(t[a] == t[t.len() - 1]);
                }
            }
            assert forall|a: int, b: int| 0 <= a < r.len() && 0 <= b < r.len() && a != b implies r[a]
                != r[b] by {
                if a == j {
                    if b < j {
                        assert(sd[b] == r[b]);
                    } else {
                        assert(sd[b - 1] == r[b]);
                    }
                } else if b == j {
                    if a < j {
                        assert(sd[a] == r[a]);
                    } else {
                        assert(sd[a - 1] == r[a]);
                    }
                } else {
                    let a2 = if a < j { a } else { a - 1 };
                    let b2 = if b < j { b } else { b - 1 };
                    assert(r[a] == sd[a2] && r[b] == sd[b2]);
                }
            }
        }
    }
}

/// Entries whose keys are all different are all different.
proof fn lemma_distinct_keys_distinct<V>(t: Seq<(Seq<char>, V)>)
    requires
        keys_of(t).no_duplicates(),
    ensures
        t.no_duplicates(),
{
    assert forall|a: int, b: int| 0 <= a < t.len() && 0 <= b < t.len() && a != b implies t[a] != t[b] by {
        assert(keys_of(t)[a] != keys_of(t)[b]);
    }
}

/// A reordering without repeats of entries with distinct keys has distinct
/// keys.
proof fn lemma_distinct_keys_kept<V>(t: Seq<(Seq<char>, V)>, s: Seq<(Seq<char>, V)>)
    requires
        keys_of(t).no_duplicates(),
        s.no_duplicates(),
        forall|y: (Seq<char>, V)| #[trigger] s.contains(y) <==> t.contains(y),
    ensures
        keys_of(s).no_duplicates(),
{
    assert forall|a: int, b: int| 0 <= a < s.len() && 0 <= b < s.len() && a != b implies keys_of(s)[a]
        != keys_of(s)[b] by {
        if s[a].0 == s[b].0 {
            assert(s.contains(s[a]));
            assert(s.contains(s[b]));
            let ia = choose|i: int| 0 <= i < t.len() && t[i] == s[a];
            let ib = choose|i: int| 0 <= i < t.len() && t[i] == s[b];
            assert(keys_of(t)[ia] == keys_of(t)[ib]);
        }
    }
}

proof fn lemma_key_sum_update<T>(t: Seq<T>, i: int, v: T, key: spec_fn(T) -> int)
    requires
        0 <= i < t.len(),
    ensures
        key_sum(t.update(i, v), key) == key_sum(t, key) - key(t[i]) + key(v),
    decreases t.len(),
{
    let u = t.update(i, v);
    if i == t.len() - 1 {
        assert(u.drop_last() =~= t.drop_last());
    } else {
        lemma_key_sum_update(t.drop_last(), i, v, key);
        assert(u.drop_last() =~= t.drop_last().update(i, v));
    }
}

proof fn lemma_tally_distinct(ks: Seq<Seq<char>>)
    ensures
        keys_of(tally(ks)).no_duplicates(),
    decreases ks.len(),
{
    if ks.len() > 0 {
        let t = tally(ks.drop_last());
        let k = ks.last();
        lemma_tally_distinct(ks.drop_last());
        lemma_key_index(t, k, 0);
        let i = key_index(t, k, 0);
        if i < t.len() {
            assert(keys_of(t.update(i, (k, t[i].1 + 1))) =~= keys_of(t));
        } else {
            assert(keys_of(t.push((k, 1))) =~= keys_of(t).push(k));
            assert forall|a: int, b: int|
                0 <= a < keys_of(t).push(k).len() && 0 <= b < keys_of(t).push(k).len() && a != b
                implies keys_of(t).push(k)[a] != keys_of(t).push(k)[b] by {
                if a < t.len() && b < t.len() {
                    assert(keys_of(t)[a] != keys_of(t)[b]);
                } else if a < t.len() {
                    assert(t[a].0 != k);
                } else {
                    assert(t[b].0 != k);
                }
            }
        }
    }
}

proof fn lemma_credit_distinct_and_sum(cs: Seq<(Seq<char>, Seq<char>, int, int)>)
    ensures
        keys_of(credit(cs)).no_duplicates(),
        key_sum(credit(cs), |r: (Seq<char>, (Seq<char>, int, int, int))| commits_key(r)) == cs.len(),
    decreases cs.len(),
{
    let key = |r: (Seq<char>, (Seq<char>, int, int, int))| commits_key(r);
    if cs.len() == 0 {
        assert(keys_of(credit(cs)) =~= Seq::<Seq<char>>::empty());
    } else {
        let t = credit(cs.drop_last());
        let c = cs.last();
        lemma_credit_distinct_and_sum(cs.drop_last());
        lemma_key_index(t, c.0, 0);
        let i = key_index(t, c.0, 0);
        if i < t.len() {
            let v = (c.0, (t[i].1.0, t[i].1.1 + 1, t[i].1.2 + c.2, t[i].1.3 + c.3));
            assert(keys_of(t.update(i, v)) =~= keys_of(t));
            lemma_key_sum_update(t, i, v, key);
        } else {
            let v = (c.0, (c.1, 1int, c.2, c.3));
            assert(keys_of(t.push(v)) =~= keys_of(t).push(c.0));
            assert(t.push(v).drop_last() =~= t);
            assert forall|a: int, b: int|
                0 <= a < keys_of(t).push(c.0).len() && 0 <= b < keys_of(t).push(c.0).len() && a != b
                implies keys_of(t).push(c.0)[a] != keys_of(t).push(c.0)[b] by {
                if a < t.len() && b < t.len() {
                    assert(keys_of(t)[a] != keys_of(t)[b]);
                } else if a < t.len() {
                    assert(t[a].0 != c.0);
                } else {
                    assert(t[b].0 != c.0);
                }
            }
        }
    }
}

/// The hot-file list holds at most 20 files, each listed once with a
/// count of at least one, ordered by how often they changed, most changed
/// first.
pub proof fn law_hot_files_most_changed_first(commit_paths: Seq<Seq<Seq<char>>>)
    ensures
        hot_files_of(commit_paths).len() <= 20,
        sorted_desc(hot_files_of(commit_paths), |e: (Seq<char>, int)| count_key(e)),
        keys_of(hot_files_of(commit_paths)).no_duplicates(),
        forall|i: int| 0 <= i < hot_files_of(commit_paths).len() ==> #[trigger] hot_files_of(commit_paths)[i].1 >= 1,
{
    let key = |e: (Seq<char>, int)| count_key(e);
    let ks = flatten_lists(first_n(commit_paths, 500));
    let t = tally(ks);
    let st = sort_desc(t, key);
    let h = hot_files_of(commit_paths);
    lemma_tally_distinct(ks);
    lemma_tally_bounds(ks);
    lemma_sort_desc_facts(t, key);
    lemma_distinct_keys_distinct(t);
    lemma_distinct_keys_kept(t, st);
    assert(h == first_n(st, 20));
    assert forall|i: int| 0 <= i < h.len() implies #[trigger] h[i] == st[i] by {}
    assert forall|i: int| 0 <= i < h.len() implies #[trigger] h[i].1 >= 1 by {
        assert(st.contains(st[i]));
        assert(t.contains(st[i]));
        let a = choose|a: int| 0 <= a < t.len() && t[a] == st[i];
        assert(t[a].1 >= 1);
    }
    assert forall|i: int, j: int| 0 <= i <= j < h.len() implies key(#[trigger] h[i]) >= key(#[trigger] h[j]) by {
        assert(h[i] == st[i] && h[j] == st[j]);
    }
    assert forall|a: int, b: int| 0 <= a < h.len() && 0 <= b < h.len() && a != b implies keys_of(h)[a]
        != keys_of(h)[b] by {
        assert(keys_of(h)[a] == keys_of(st)[a] && keys_of(h)[b] == keys_of(st)[b]);
    }
}

/// The contributor list names each author once (no two rows share an
/// author), is ordered by commits, most first, and its commit counts add
/// up to the number of commits counted: all of them, up to 500.
pub proof fn law_contributors_each_commit_once(cs: Seq<(Seq<char>, Seq<char>, int, int)>)
    ensures
        sorted_desc(contributors_of(cs), |r: (Seq<char>, (Seq<char>, int, int, int))| commits_key(r)),
        keys_of(contributors_of(cs)).no_duplicates(),
        forall|i: int, j: int|
            0 <= i < j < contributors_of(cs).len() ==> (#[trigger] contributors_of(cs)[i]).0 != (#[trigger] contributors_of(cs)[j]).0,
        key_sum(contributors_of(cs), |r: (Seq<char>, (Seq<char>, int, int, int))| commits_key(r)) == if cs.len() > 500 {
            500
        } else {
            cs.len() as int
        },
{
    let key = |r: (Seq<char>, (Seq<char>, int, int, int))| commits_key(r);
    let f = first_n(cs, 500);
    let t = credit(f);
    lemma_credit_distinct_and_sum(f);
    lemma_sort_desc_facts(t, key);
    lemma_distinct_keys_distinct(t);
    lemma_distinct_keys_kept(t, sort_desc(t, key));
    let c = contributors_of(cs);
    assert forall|i: int, j: int| 0 <= i < j < c.len() implies (#[trigger] c[i]).0 != (#[trigger] c[j]).0 by {
        assert(keys_of(c)[i] == c[i].0 && keys_of(c)[j] == c[j].0);
    }
}

/// How many of the commits `cs` are by the author named `a`.
pub open spec fn commits_by(cs: Seq<(Seq<char>, Seq<char>, int, int)>, a: Seq<char>) -> int
    decreases cs.len(),
{
    if cs.len() == 0 {
        0
    } else {
        commits_by(cs.drop_last(), a) + if cs.last().0 == a {
            1int
        } else {
            0int
        }
    }
}

proof fn lemma_credit_counts(cs: Seq<(Seq<char>, Seq<char>, int, int)>)
    ensures
        forall|k: int| 0 <= k < credit(cs).len() ==> (#[trigger] credit(cs)[k]).1.1 == commits_by(cs, credit(cs)[k].0),
        forall|a: Seq<char>| !keys_of(credit(cs)).contains(a) ==> #[trigger] commits_by(cs, a) == 0,
    decreases cs.len(),
{
    if cs.len() > 0 {
        let d = cs.drop_last();
        let c = cs.last();
        let t = credit(d);
        lemma_credit_counts(d);
        lemma_credit_distinct_and_sum(d);
        lemma_key_index(t, c.0, 0);
        let i = key_index(t, c.0, 0);
        let n = credit(cs);
        assert forall|a: Seq<char>| #[trigger] commits_by(cs, a) == commits_by(d, a) + if c.0 == a {
            1int
        } else {
            0int
        } by {}
        assert(n.len() >= t.len());
        assert forall|j: int| 0 <= j < t.len() && j != i implies #[trigger] n[j] == t[j] by {}
        if i < t.len() {
            assert(n[i].0 == c.0);
            assert(n[i].1.1 == t[i].1.1 + 1);
            assert forall|k: int| 0 <= k < n.len() implies (#[trigger] n[k]).1.1 == commits_by(cs, n[k].0) by {
                if k != i {
                    assert(n[k] == t[k]);
                    assert(keys_of(t)[k] == t[k].0 && keys_of(t)[i] == t[i].0);
                    assert(t[k].0 != c.0);
                }
            }
            assert forall|a: Seq<char>| !keys_of(n).contains(a) implies #[trigger] commits_by(cs, a) == 0 by {
                assert(keys_of(n)[i] == n[i].0);
                assert(keys_of(n).contains(c.0));
                if keys_of(t).contains(a) {
                    let j = choose|j: int| 0 <= j < keys_of(t).len() && keys_of(t)[j] == a;
                    if j == i {
                        assert(keys_of(n)[i] == a);
                    } else {
                        assert(keys_of(n)[j] == a);
                    }
                }
            }
        } else {
            assert(n == t.push((c.0, (c.1, 1int, c.2, c.3))));
            assert(!keys_of(t).contains(c.0)) by {
                if keys_of(t).contains(c.0) {
                    let j = choose|j: int| 0 <= j < keys_of(t).len() && keys_of(t)[j] == c.0;
                    assert(t[j].0 == c.0);
                }
            }
            assert(commits_by(d, c.0) == 0);
            assert forall|k: int| 0 <= k < n.len() implies (#[trigger] n[k]).1.1 == commits_by(cs, n[k].0) by {
                if k < t.len() {
                    assert(n[k] == t[k]);
                    assert(t[k].0 != c.0);
                } else {
                    assert(n[k] == (c.0, (c.1, 1int, c.2, c.3)));
                }
            }
            assert forall|a: Seq<char>| !keys_of(n).contains(a) implies #[trigger] commits_by(cs, a) == 0 by {
                assert(keys_of(n)[t.len() as int] == c.0);
                assert(keys_of(n).contains(c.0));
                if keys_of(t).contains(a) {
                    let j = choose|j: int| 0 <= j < keys_of(t).len() && keys_of(t)[j] == a;
                    assert(keys_of(n)[j] == a);
                }
            }
        }
    }
}

/// Each contributor's commit count is the number of counted commits (the
/// first 500) by that author.
pub proof fn law_contributor_counts_their_commits(cs: Seq<(Seq<char>, Seq<char>, int, int)>)
    ensures
        forall|k: int| 0 <= k < contributors_of(cs).len() ==> (#[trigger] contributors_of(cs)[k]).1.1 == commits_by(
            first_n(cs, 500),
            contributors_of(cs)[k].0,
        ),
{
    let key = |r: (Seq<char>, (Seq<char>, int, int, int))| commits_key(r);
    let f = first_n(cs, 500);
    let t = credit(f);
    lemma_credit_counts(f);
    lemma_sort_desc_facts(t, key);
    assert forall|k: int| 0 <= k < contributors_of(cs).len() implies (#[trigger] contributors_of(cs)[k]).1.1
        == commits_by(f, contributors_of(cs)[k].0) by {
        let r = contributors_of(cs)[k];
        assert(sort_desc(t, key).contains(r));
        assert(t.contains(r));
        let j = choose|j: int| 0 <= j < t.len() && t[j] == r;
        assert(t[j].1.1 == commits_by(f, t[j].0));
    }
}

/// One entry of the repository status as the health report reads it: its
/// path as git2 gives it, its status flags (git2's bits), and the size of
/// the blob at that path in HEAD's tree, where there is one.
pub struct StatusEntry {
    pub path: Option<String>,
    pub status_bits: u32,
    pub blob_size: Option<u64>,
}

/// git2's status flag for a conflicted entry.
pub const STATUS_CONFLICTED: u32 = 32768;

/// Whether an entry's status is exactly "conflicted".
pub open spec fn is_conflicted(e: StatusEntry) -> bool {
    e.status_bits == 32768
}

/// A local branch as the health report reads it: its name as git2 gives
/// it, and whether it has an upstream.
pub struct BranchState {
    pub name: Option<String>,
    pub has_upstream: bool,
}

/// The health report: large files, branches without upstream, and
/// conflicted files.
pub struct HealthReport {
    pub large_files: Vec<String>,
    pub stale_branches: Vec<String>,
    pub conflicts: Vec<String>,
}

/// Blobs larger than this many bytes are reported as large files.
pub const LARGE_FILE_BYTES: u64 = 1048576;

/// The path of a status entry, `未知` when git2 gives none.
pub open spec fn status_path(e: StatusEntry) -> Seq<char> {
    match e.path {
        Some(p) => p@,
        None => "未知"@,
    }
}

/// Whether a status entry is a large file: its blob in HEAD is larger than
/// 1 MiB.
pub open spec fn is_large(e: StatusEntry) -> bool {
    match e.blob_size {
        Some(n) => n > 1048576,
        None => false,
    }
}

/// The paths of the entries of `es` that `pick` selects, in order.
pub open spec fn picked_paths(es: Seq<StatusEntry>, pick: spec_fn(StatusEntry) -> bool) -> Seq<Seq<char>>
    decreases es.len(),
{
    if es.len() == 0 {
        seq![]
    } else if pick(es.last()) {
        picked_paths(es.drop_last(), pick).push(status_path(es.last()))
    } else {
        picked_paths(es.drop_last(), pick)
    }
}

/// The names (`未知` when git2 gives none) of the branches without an
/// upstream, in order.
pub open spec fn stale_names(bs: Seq<BranchState>) -> Seq<Seq<char>>
    decreases bs.len(),
{
    if bs.len() == 0 {
        seq![]
    } else if !bs.last().has_upstream {
        stale_names(bs.drop_last()).push(
            match bs.last().name {
                Some(n) => n@,
                None => "未知"@,
            },
        )
    } else {
        stale_names(bs.drop_last())
    }
}

/// The health report of a repository from its status entries and its
/// local branches: the large files and the conflicted files among the
/// status entries, and the branches without upstream, each list in the
/// order of its source.
pub fn health_report(statuses: &Vec<StatusEntry>, branches: &Vec<BranchState>) -> (r: HealthReport)
    ensures
        strings_view(r.large_files) == picked_paths(statuses@, |e: StatusEntry| is_large(e)),
        strings_view(r.conflicts) == picked_paths(statuses@, |e: StatusEntry| is_conflicted(e)),
        strings_view(r.stale_branches) == stale_names(branches@),
{
    let ghost large = |e: StatusEntry| is_large(e);
    let ghost conflicted = |e: StatusEntry| is_conflicted(e);
    let mut large_files: Vec<String> = Vec::new();
    let mut conflicts: Vec<String> = Vec::new();
    let mut i: usize = 0;
    assert(statuses@.take(0) =~= Seq::<StatusEntry>::empty());
    assert(strings_view(large_files) =~= Seq::<Seq<char>>::empty());
    assert(strings_view(conflicts) =~= Seq::<Seq<char>>::empty());
    while i < statuses.len()
        invariant
            i <= statuses@.len(),
            large == (|e: StatusEntry| is_large(e)),
            conflicted == (|e: StatusEntry| is_conflicted(e)),
            strings_view(large_files) == picked_paths(statuses@.take(i as int), large),
            strings_view(conflicts) == picked_paths(statuses@.take(i as int), conflicted),
        decreases statuses@.len() - i,
    {
        let e = &statuses[i];
        assert(statuses@.take(i + 1).drop_last() =~= statuses@.take(i as int));
        assert(statuses@.take(i + 1).last() == *e);
        let path: Vec<char> = match &e.path {
            Some(p) => chars_of(p.as_str()),
            None => chars_of("未知"),
        };
        assert(path@ == status_path(*e));
        if e.status_bits == STATUS_CONFLICTED {
            let ghost before = strings_view(conflicts);
            conflicts.push(string_of(&path));
            assert(strings_view(conflicts) =~= before.push(path@));
        }
        let big = match e.blob_size {
            Some(n) => n > LARGE_FILE_BYTES,
            None => false,
        };
        if big {
            let ghost before = strings_view(large_files);
            large_files.push(string_of(&path));
            assert(strings_view(large_files) =~= before.push(path@));
        }
        i = i + 1;
    }
    assert(statuses@.take(statuses@.len() as int) =~= statuses@);
    let mut stale_branches: Vec<String> = Vec::new();
    let mut k: usize = 0;
    assert(branches@.take(0) =~= Seq::<BranchState>::empty());
    assert(strings_view(stale_branches) =~= Seq::<Seq<char>>::empty());
    while k < branches.len()
        invariant
            k <= branches@.len(),
            strings_view(stale_branches) == stale_names(branches@.take(k as int)),
        decreases branches@.len() - k,
    {
        let b = &branches[k];
        assert(branches@.take(k + 1).drop_last() =~= branches@.take(k as int));
        assert(branches@.take(k + 1).last() == *b);
        if !b.has_upstream {
            let name: Vec<char> = match &b.name {
                Some(n) => chars_of(n.as_str()),
                None => chars_of("未知"),
            };
            let ghost before = strings_view(stale_branches);
            stale_branches.push(string_of(&name));
            assert(strings_view(stale_branches) =~= before.push(name@));
        }
        k = k + 1;
    }
    assert(branches@.take(branches@.len() as int) =~= branches@);
    HealthReport { large_files, stale_branches, conflicts }
}

/// The strings `ls` with `sep` between neighbours.
pub open spec fn join_sep(ls: Seq<Seq<char>>, sep: Seq<char>) -> Seq<char>
    decreases ls.len(),
{
    if ls.len() == 0 {
        seq![]
    } else if ls.len() == 1 {
        ls[0]
    } else {
        join_sep(ls.drop_last(), sep) + sep + ls.last()
    }
}

/// The report line of a contributor.
pub open spec fn contributor_line(c: Contributor) -> Seq<char> {
    "- "@ + c.author@ + ": "@ + decimal(c.commits as nat) + " 次提交, +"@ + decimal(
        c.additions as nat,
    ) + "/-"@ + decimal(c.deletions as nat) + "\n"@
}

/// The report line of a hot file.
pub open spec fn hot_line(f: HotFile) -> Seq<char> {
    "- "@ + f.path@ + ": "@ + decimal(f.changes as nat) + " 次变更\n"@
}

/// The lines `line(x)` of the items `xs`, one after another.
pub open spec fn lines_text<T>(xs: Seq<T>, line: spec_fn(T) -> Seq<char>) -> Seq<char>
    decreases xs.len(),
{
    if xs.len() == 0 {
        seq![]
    } else {
        lines_text(xs.drop_last(), line) + line(xs.last())
    }
}

/// The Markdown analysis report.
pub open spec fn report_text(h: HealthReport, cs: Seq<Contributor>, fs: Seq<HotFile>) -> Seq<char> {
    "# 仓库分析报告\n\n## 健康报告\n"@ + "- 大文件: "@ + join_sep(strings_view(h.large_files), ", "@)
        + "\n"@ + "- 无上游分支: "@ + join_sep(strings_view(h.stale_branches), ", "@) + "\n"@
        + "- 冲突文件: "@ + join_sep(strings_view(h.conflicts), ", "@) + "\n\n"@ + "## 贡献者统计\n"@
        + lines_text(cs, |c: Contributor| contributor_line(c)) + "\n## 热点文件\n"@ + lines_text(
        fs,
        |f: HotFile| hot_line(f),
    )
}

/// Appends the characters of `s` to `out`.
fn push_text(out: &mut Vec<char>, s: &str)
    ensures
        final(out)@ == old(out)@ + s@,
{
    let v = chars_of(s);
    append_chars(out, &v);
}

/// Appends the decimal numeral of `n` to `out`.
fn push_number(out: &mut Vec<char>, n: usize)
    ensures
        final(out)@ == old(out)@ + decimal(n as nat),
{
    let v = decimal_chars(n);
    append_chars(out, &v);
}

/// Appends the strings `ls`, with `sep` between neighbours, to `out`.
fn push_joined(out: &mut Vec<char>, ls: &Vec<String>, sep: &str)
    ensures
        final(out)@ == old(out)@ + join_sep(strings_view(*ls), sep@),
{
    let ghost lv = strings_view(*ls);
    let ghost start = out@;
    let mut i: usize = 0;
    assert(lv.take(0) =~= Seq::<Seq<char>>::empty());
    assert(out@ =~= start + join_sep(lv.take(0), sep@));
    while i < ls.len()
        invariant
            i <= ls@.len(),
            lv == strings_view(*ls),
            out@ == start + join_sep(lv.take(i as int), sep@),
        decreases ls@.len() - i,
    {
        assert(lv.take(i + 1).drop_last() =~= lv.take(i as int));
        assert(lv.take(i + 1).last() == ls@[i as int]@);
        if i > 0 {
            push_text(out, sep);
        } else {
            assert(lv.take(1) =~= seq![lv[0]]);
        }
        push_text(out, ls[i].as_str());
        i = i + 1;
    }
    assert(lv.take(lv.len() as int) =~= lv);
}

/// The Markdown report of a repository's analysis: the health report, one
/// line per contributor and one per hot file.
pub fn export_report_markdown(health: &HealthReport, contributors: &Vec<Contributor>, hot_files: &Vec<HotFile>) -> (r: String)
    ensures
        r@ == report_text(*health, contributors@, hot_files@),
{
    let ghost cline = |c: Contributor| contributor_line(c);
    let ghost hline = |f: HotFile| hot_line(f);
    let mut md: Vec<char> = Vec::new();
    push_text(&mut md, "# 仓库分析报告\n\n## 健康报告\n");
    push_text(&mut md, "- 大文件: ");
    push_joined(&mut md, &health.large_files, ", ");
    push_text(&mut md, "\n");
    push_text(&mut md, "- 无上游分支: ");
    push_joined(&mut md, &health.stale_branches, ", ");
    push_text(&mut md, "\n");
    push_text(&mut md, "- 冲突文件: ");
    push_joined(&mut md, &health.conflicts, ", ");
    push_text(&mut md, "\n\n");
    push_text(&mut md, "## 贡献者统计\n");
    let ghost head = md@;
    let mut i: usize = 0;
    assert(contributors@.take(0) =~= Seq::<Contributor>::empty());
    assert(md@ =~= head + lines_text(contributors@.take(0), cline));
    while i < contributors.len()
        invariant
            i <= contributors@.len(),
            cline == (|c: Contributor| contributor_line(c)),
            md@ == head + lines_text(contributors@.take(i as int), cline),
        decreases contributors@.len() - i,
    {
        let c = &contributors[i];
        assert(contributors@.take(i + 1).drop_last() =~= contributors@.take(i as int));
        assert(contributors@.take(i + 1).last() == *c);
        let ghost before = md@;
        push_text(&mut md, "- ");
        push_text(&mut md, c.author.as_str());
        push_text(&mut md, ": ");
        push_number(&mut md, c.commits);
        push_text(&mut md, " 次提交, +");
        push_number(&mut md, c.additions);
        push_text(&mut md, "/-");
        push_number(&mut md, c.deletions);
        push_text(&mut md, "\n");
        assert(md@ =~= before + contributor_line(*c));
        i = i + 1;
    }
    assert(contributors@.take(contributors@.len() as int) =~= contributors@);
    push_text(&mut md, "\n## 热点文件\n");
    let ghost mid = md@;
    let mut k: usize = 0;
    assert(hot_files@.take(0) =~= Seq::<HotFile>::empty());
    assert(md@ =~= mid + lines_text(hot_files@.take(0), hline));
    while k < hot_files.len()
        invariant
            k <= hot_files@.len(),
            hline == (|f: HotFile| hot_line(f)),
            md@ == mid + lines_text(hot_files@.take(k as int), hline),
        decreases hot_files@.len() - k,
    {
        let f = &hot_files[k];
        assert(hot_files@.take(k + 1).drop_last() =~= hot_files@.take(k as int));
        assert(hot_files@.take(k + 1).last() == *f);
        let ghost before = md@;
        push_text(&mut md, "- ");
        push_text(&mut md, f.path.as_str());
        push_text(&mut md, ": ");
        push_number(&mut md, f.changes);
        push_text(&mut md, " 次变更\n");
        assert(md@ =~= before + hot_line(*f));
        k = k + 1;
    }
    assert(hot_files@.take(hot_files@.len() as int) =~= hot_files@);
    string_of(&md)
}

/// The report lists every contributor it is given, one line each, in
/// order: adding a contributor to the list adds exactly that contributor's
/// line, right after the lines of the others and before the hot-file
/// section (where the report of the same contributors without hot files
/// ends its contributor section), and changes nothing else.
pub proof fn law_report_lists_every_contributor(h: HealthReport, cs: Seq<Contributor>, c: Contributor, fs: Seq<HotFile>)
    ensures
        ({
            let r0 = report_text(h, cs, fs);
            let p = report_text(h, cs, Seq::<HotFile>::empty()).len() - "\n## 热点文件\n"@.len();
            &&& 0 <= p <= r0.len()
            &&& report_text(h, cs.push(c), fs) == r0.take(p) + contributor_line(c) + r0.skip(p)
            &&& report_text(h, cs.push(c), fs).len() == r0.len() + contributor_line(c).len()
        }),
{
    let cl = |x: Contributor| contributor_line(x);
    let a = "# 仓库分析报告\n\n## 健康报告\n"@ + "- 大文件: "@ + join_sep(strings_view(h.large_files), ", "@)
        + "\n"@ + "- 无上游分支: "@ + join_sep(strings_view(h.stale_branches), ", "@) + "\n"@
        + "- 冲突文件: "@ + join_sep(strings_view(h.conflicts), ", "@) + "\n\n"@ + "## 贡献者统计\n"@;
    let l = lines_text(cs, cl);
    let hh = "\n## 热点文件\n"@;
    let f = lines_text(fs, |x: HotFile| hot_line(x));
    let e = lines_text(Seq::<HotFile>::empty(), |x: HotFile| hot_line(x));
    assert(e =~= Seq::<char>::empty());
    assert(cs.push(c).drop_last() =~= cs);
    assert(lines_text(cs.push(c), cl) == l + contributor_line(c));
    let r0 = report_text(h, cs, fs);
    assert(r0 == a + l + hh + f);
    assert(report_text(h, cs, Seq::<HotFile>::empty()) == a + l + hh + e);
    assert(report_text(h, cs.push(c), fs) == a + (l + contributor_line(c)) + hh + f);
    let p = (a.len() + l.len()) as int;
    assert(r0.take(p) =~= a + l);
    assert(r0.skip(p) =~= hh + f);
    assert(report_text(h, cs.push(c), fs) =~= r0.take(p) + contributor_line(c) + r0.skip(p));
}

} // verus!
