//! Commit history as the front end lists it: commit records with their
//! formatted times, searching, filtering, paging, and the changelog that
//! groups commit messages by day.

use vstd::prelude::*;
use crate::diff::{byte_len, lemma_encode_utf8_concat};
use crate::text::{append_chars, chars_of, contains_text, contains_text_exec, same_chars, string_of};
use vstd::utf8::encode_utf8;

verus! {

/// A commit as the history list shows it.
pub struct Commit {
    pub hash: String,
    pub author: String,
    pub time: String,
    pub message: String,
}

impl View for Commit {
    type V = (Seq<char>, Seq<char>, Seq<char>, Seq<char>);

    open spec fn view(&self) -> (Seq<char>, Seq<char>, Seq<char>, Seq<char>) {
        (self.hash@, self.author@, self.time@, self.message@)
    }
}

pub open spec fn commit_views(cs: Seq<Commit>) -> Seq<(Seq<char>, Seq<char>, Seq<char>, Seq<char>)> {
    cs.map_values(|c: Commit| c@)
}

/// What chrono makes of a Unix time: `DateTime::<Utc>::from_timestamp(secs, 0)`
/// formatted as `%Y-%m-%d %H:%M:%S`, or `None` when chrono cannot represent
/// the time.
pub uninterp spec fn utc_time_text(secs: i64) -> Option<Seq<char>>;

/// Calls `chrono::DateTime::from_timestamp(secs, 0)` and formats the result
/// with `%Y-%m-%d %H:%M:%S`.  The outcome is named by `utc_time_text`.
#[verifier::external_body]
fn format_utc_time(secs: i64) -> (r: Option<String>)
    ensures
        match r {
            Some(t) => utc_time_text(secs) == Some(t@),
            None => utc_time_text(secs) is None,
        },
{
    chrono::DateTime::from_timestamp(secs, 0).map(|dt| dt.format("%Y-%m-%d %H:%M:%S").to_string())
}

/// The time shown for a commit: the formatted UTC time, or `未知时间` when
/// chrono cannot represent it.
pub open spec fn commit_time_text(secs: i64) -> Seq<char> {
    match utc_time_text(secs) {
        Some(t) => t,
        None => "未知时间"@,
    }
}

/// The time shown for a commit made at Unix time `secs`.
pub fn commit_time(secs: i64) -> (r: String)
    ensures
        r@ == commit_time_text(secs),
{
    match format_utc_time(secs) {
        Some(t) => t,
        None => string_of(&chars_of("未知时间")),
    }
}

/// Whether `c` is the record of the commit `hash` with git2's author name,
/// message and time: the author defaults to `未知` and the message to the
/// empty text when git2 cannot give them as UTF-8.
pub open spec fn commit_record(c: Commit, hash: Seq<char>, author: Option<String>, message: Option<String>, secs: i64) -> bool {
    &&& c.hash@ == hash
    &&& c.author@ == match author {
        Some(a) => a@,
        None => "未知"@,
    }
    &&& c.message@ == match message {
        Some(m) => m@,
        None => Seq::<char>::empty(),
    }
    &&& c.time@ == commit_time_text(secs)
}

/// A commit record (see `commit_record`).
pub fn make_commit(hash: String, author: Option<String>, message: Option<String>, secs: i64) -> (c: Commit)
    ensures
        commit_record(c, hash@, author, message, secs),
{
    let author = match author {
        Some(a) => a,
        None => string_of(&chars_of("未知")),
    };
    let message = match message {
        Some(m) => m,
        None => String::new(),
    };
    Commit { hash, author, time: commit_time(secs), message }
}

/// A copy of a commit record.
pub fn copy_commit(c: &Commit) -> (r: Commit)
    ensures
        r@ == c@,
{
    Commit {
        hash: c.hash.clone(),
        author: c.author.clone(),
        time: c.time.clone(),
        message: c.message.clone(),
    }
}

/// What `str::to_lowercase` makes of a text (Unicode lower case mapping).
pub uninterp spec fn lowercase(s: Seq<char>) -> Seq<char>;

/// Calls `str::to_lowercase`; the result is named by `lowercase`.
#[verifier::external_body]
pub(crate) fn to_lowercase(s: &str) -> (r: String)
    ensures
        r@ == lowercase(s@),
{
    s.to_lowercase()
}

/// Whether a commit matches a search: the lower-cased query occurs in the
/// lower-cased message or author.
pub open spec fn search_matches(c: (Seq<char>, Seq<char>, Seq<char>, Seq<char>), query: Seq<char>) -> bool {
    contains_text(lowercase(c.3), lowercase(query)) || contains_text(lowercase(c.1), lowercase(query))
}

/// The commits of `cs` that satisfy `keep`, in order.
pub open spec fn keep_commits(
    cs: Seq<(Seq<char>, Seq<char>, Seq<char>, Seq<char>)>,
    keep: spec_fn((Seq<char>, Seq<char>, Seq<char>, Seq<char>)) -> bool,
) -> Seq<(Seq<char>, Seq<char>, Seq<char>, Seq<char>)>
    decreases cs.len(),
{
    if cs.len() == 0 {
        seq![]
    } else {
        let r = keep_commits(cs.drop_last(), keep);
        if keep(cs.last()) {
            r.push(cs.last())
        } else {
            r
        }
    }
}

proof fn lemma_keep_len(cs: Seq<(Seq<char>, Seq<char>, Seq<char>, Seq<char>)>, keep: spec_fn((Seq<char>, Seq<char>, Seq<char>, Seq<char>)) -> bool)
    ensures
        keep_commits(cs, keep).len() <= cs.len(),
    decreases cs.len(),
{
    if cs.len() > 0 {
        lemma_keep_len(cs.drop_last(), keep);
    }
}

/// The search results: the first 50 matching commits, in history order.
pub open spec fn search_results(cs: Seq<(Seq<char>, Seq<char>, Seq<char>, Seq<char>)>, query: Seq<char>) -> Seq<(Seq<char>, Seq<char>, Seq<char>, Seq<char>)> {
    let m = keep_commits(cs, |c: (Seq<char>, Seq<char>, Seq<char>, Seq<char>)| search_matches(c, query));
    if m.len() > 50 {
        m.take(50)
    } else {
        m
    }
}

/// The commits whose message or author contains the query, ignoring case;
/// at most the first 50.
pub fn search_commits(all: &Vec<Commit>, query: &str) -> (r: Vec<Commit>)
    ensures
        commit_views(r@) == search_results(commit_views(all@), query@),
{
    let ghost cs = commit_views(all@);
    let ghost keep = |c: (Seq<char>, Seq<char>, Seq<char>, Seq<char>)| search_matches(c, query@);
    let q = chars_of(to_lowercase(query).as_str());
    let mut r: Vec<Commit> = Vec::new();
    let mut i: usize = 0;
    while i < all.len() && r.len() < 50
        invariant
            i <= all@.len(),
            cs == commit_views(all@),
            q@ == lowercase(query@),
            keep == (|c: (Seq<char>, Seq<char>, Seq<char>, Seq<char>)| search_matches(c, query@)),
            commit_views(r@) == keep_commits(cs.take(i as int), keep),
            r@.len() <= 50,
        decreases all@.len() - i,
    {
        let c = &all[i];
        assert(cs.take(i + 1).drop_last() =~= cs.take(i as int));
        assert(cs.take(i + 1).last() == c@);
        let msg = chars_of(to_lowercase(c.message.as_str()).as_str());
        let author = chars_of(to_lowercase(c.author.as_str()).as_str());
        if contains_text_exec(&msg, &q) || contains_text_exec(&author, &q) {
            let ghost before = commit_views(r@);
            r.push(copy_commit(c));
            assert(commit_views(r@) =~= before.push(c@));
        }
        i = i + 1;
    }
    proof {
        let m = keep_commits(cs, keep);
        if i == all@.len() {
            assert(cs.take(i as int) == cs);
        } else {
            lemma_keep_prefix(cs, keep, i as int);
        }
    }
    r
}

/// Once 50 commits are kept from a prefix, the first 50 kept of the whole
/// list are those.
proof fn lemma_keep_prefix(cs: Seq<(Seq<char>, Seq<char>, Seq<char>, Seq<char>)>, keep: spec_fn((Seq<char>, Seq<char>, Seq<char>, Seq<char>)) -> bool, i: int)
    requires
        0 <= i <= cs.len(),
    ensures
        keep_commits(cs, keep).len() >= keep_commits(cs.take(i), keep).len(),
        keep_commits(cs, keep).take(keep_commits(cs.take(i), keep).len() as int) == keep_commits(cs.take(i), keep),
    decreases cs.len() - i,
{
    if i < cs.len() {
        lemma_keep_prefix(cs, keep, i + 1);
        assert(cs.take(i + 1).drop_last() =~= cs.take(i));
        let a = keep_commits(cs.take(i), keep);
        let b = keep_commits(cs.take(i + 1), keep);
        let w = keep_commits(cs, keep);
        assert(b.take(a.len() as int) =~= a);
        assert(w.take(a.len() as int) =~= w.take(b.len() as int).take(a.len() as int));
    } else {
        assert(cs.take(i) =~= cs);
        assert(keep_commits(cs, keep).take(keep_commits(cs, keep).len() as int) =~= keep_commits(cs, keep));
    }
}

/// Whether `a` sorts before `b` as `String`s compare: at the first place
/// where they differ the character of `a` is smaller, or `a` is a proper
/// prefix of `b`.  (Comparing the UTF-8 bytes gives the same order.)
pub open spec fn text_less(a: Seq<char>, b: Seq<char>) -> bool {
    exists|k: int|
        0 <= k <= a.len() && k <= b.len() && #[trigger] a.take(k) == b.take(k) && ((k == a.len()
            && k < b.len()) || (k < a.len() && k < b.len() && a[k] < b[k]))
}

/// Whether `a` sorts before `b`.
pub fn text_less_exec(a: &Vec<char>, b: &Vec<char>) -> (r: bool)
    ensures
        r == text_less(a@, b@),
{
    let mut k: usize = 0;
    while k < a.len() && k < b.len() && a[k] == b[k]
        invariant
            k <= a@.len(),
            k <= b@.len(),
            a@.take(k as int) == b@.take(k as int),
        decreases a@.len() - k,
    {
        assert(a@.take(k + 1) =~= a@.take(k as int).push(a@[k as int]));
        assert(b@.take(k + 1) =~= b@.take(k as int).push(b@[k as int]));
        k = k + 1;
    }
    let r = if k == a.len() {
        k < b.len()
    } else if k == b.len() {
        false
    } else {
        a[k] < b[k]
    };
    proof {
        if r {
            assert(a@.take(k as int) == b@.take(k as int));
        } else {
            assert forall|j: int|
                0 <= j <= a@.len() && j <= b@.len() && #[trigger] a@.take(j) == b@.take(j) implies !((j
                    == a@.len() && j < b@.len()) || (j < a@.len() && j < b@.len() && a@[j]
                    < b@[j])) by {
                if j < k {
                    assert(a@[j] == a@.take(k as int)[j]);
                    assert(b@[j] == b@.take(k as int)[j]);
                    assert(a@[j] == a@.take(k as int)[j]);
                } else if j > k {
                    assert(a@[k as int] == a@.take(j)[k as int]);
                    assert(b@[k as int] == b@.take(j)[k as int]);
                }
            }
        }
    }
    r
}

/// Whether a commit passes the history filter: its author contains the
/// author filter (ignoring case), and its time text is not before the start
/// nor after the end of the date range; absent filters pass everything.
pub open spec fn filter_matches(
    c: (Seq<char>, Seq<char>, Seq<char>, Seq<char>),
    author: Option<Seq<char>>,
    date_from: Option<Seq<char>>,
    date_to: Option<Seq<char>>,
) -> bool {
    &&& (author matches Some(a) ==> contains_text(lowercase(c.1), lowercase(a)))
    &&& (date_from matches Some(f) ==> !text_less(c.2, f))
    &&& (date_to matches Some(t) ==> !text_less(t, c.2))
}

pub open spec fn opt_view(o: Option<String>) -> Option<Seq<char>> {
    match o {
        Some(s) => Some(s@),
        None => None,
    }
}

/// The commits that pass the author and date filters, in history order.
pub fn filter_commits(all: &Vec<Commit>, author: Option<String>, date_from: Option<String>, date_to: Option<String>) -> (r: Vec<Commit>)
    ensures
        commit_views(r@) == keep_commits(
            commit_views(all@),
            |c: (Seq<char>, Seq<char>, Seq<char>, Seq<char>)|
                filter_matches(c, opt_view(author), opt_view(date_from), opt_view(date_to)),
        ),
{
    let ghost cs = commit_views(all@);
    let ghost keep = |c: (Seq<char>, Seq<char>, Seq<char>, Seq<char>)|
        filter_matches(c, opt_view(author), opt_view(date_from), opt_view(date_to));
    let a = match &author {
        Some(a) => Some(chars_of(to_lowercase(a.as_str()).as_str())),
        None => None,
    };
    let f = match &date_from {
        Some(f) => Some(chars_of(f.as_str())),
        None => None,
    };
    let t = match &date_to {
        Some(t) => Some(chars_of(t.as_str())),
        None => None,
    };
    let mut r: Vec<Commit> = Vec::new();
    let mut i: usize = 0;
    while i < all.len()
        invariant
            i <= all@.len(),
            cs == commit_views(all@),
            keep == (|c: (Seq<char>, Seq<char>, Seq<char>, Seq<char>)|
                filter_matches(c, opt_view(author), opt_view(date_from), opt_view(date_to))),
            match a {
                Some(v) => opt_view(author) matches Some(x) && v@ == lowercase(x),
                None => opt_view(author) is None,
            },
            match f {
                Some(v) => opt_view(date_from) == Some(v@),
                None => opt_view(date_from) is None,
            },
            match t {
                Some(v) => opt_view(date_to) == Some(v@),
                None => opt_view(date_to) is None,
            },
            commit_views(r@) == keep_commits(cs.take(i as int), keep),
        decreases all@.len() - i,
    {
        let c = &all[i];
        assert(cs.take(i + 1).drop_last() =~= cs.take(i as int));
        assert(cs.take(i + 1).last() == c@);
        let time = chars_of(c.time.as_str());
        let ok_author = match &a {
            Some(v) => contains_text_exec(&chars_of(to_lowercase(c.author.as_str()).as_str()), v),
            None => true,
        };
        let ok_from = match &f {
            Some(v) => !text_less_exec(&time, v),
            None => true,
        };
        let ok_to = match &t {
            Some(v) => !text_less_exec(v, &time),
            None => true,
        };
        if ok_author && ok_from && ok_to {
            let ghost before = commit_views(r@);
            r.push(copy_commit(c));
            assert(commit_views(r@) =~= before.push(c@));
        }
        i = i + 1;
    }
    assert(cs.take(cs.len() as int) == cs);
    r
}

/// One page of the history and the number of commits in all: page `page`
/// of size `page_size`, empty when it starts past the end.
pub fn paginate(all: &Vec<Commit>, page: usize, page_size: usize) -> (r: (Vec<Commit>, usize))
    requires
        page * page_size <= usize::MAX,
        page * page_size < all@.len() ==> page * page_size + page_size <= usize::MAX,
    ensures
        r.1 == all@.len(),
        ({
            let start = page * page_size;
            let end = if start + page_size < all@.len() {
                start + page_size
            } else {
                all@.len() as int
            };
            if start >= all@.len() {
                r.0@.len() == 0
            } else {
                commit_views(r.0@) == commit_views(all@).subrange(start, end)
            }
        }),
{
    let total = all.len();
    let start = page * page_size;
    if start >= total {
        return (Vec::new(), total);
    }
    let end = if start + page_size < total {
        start + page_size
    } else {
        total
    };
    let ghost cs = commit_views(all@);
    let mut r: Vec<Commit> = Vec::new();
    let mut i: usize = start;
    while i < end
        invariant
            start <= i <= end <= all@.len(),
            cs == commit_views(all@),
            commit_views(r@) == cs.subrange(start as int, i as int),
        decreases end - i,
    {
        let ghost before = commit_views(r@);
        r.push(copy_commit(&all[i]));
        assert(commit_views(r@) =~= before.push(all@[i as int]@));
        i = i + 1;
        assert(cs.subrange(start as int, i as int) =~= cs.subrange(start as int, i - 1).push(cs[i - 1]));
    }
    (r, total)
}

/// The UTF-8 length of one character.
pub fn char_utf8_len(c: char) -> (n: usize)
    ensures
        n as int == byte_len(seq![c]),
        1 <= n <= 4,
{
    proof {
        vstd::utf8::char_is_scalar(c);
        assert(seq![c].drop_first() =~= Seq::<char>::empty());
        assert(encode_utf8(Seq::<char>::empty()) =~= Seq::<u8>::empty());
    }
    let u = c as u32;
    if u <= 0x7F {
        1
    } else if u <= 0x7FF {
        2
    } else if u <= 0xFFFF {
        3
    } else {
        4
    }
}

proof fn lemma_byte_len_step(t: Seq<char>, k: int)
    requires
        0 <= k < t.len(),
    ensures
        byte_len(t.take(k + 1)) == byte_len(t.take(k)) + byte_len(seq![t[k]]),
        byte_len(seq![t[k]]) >= 1,
{
    assert(t.take(k + 1) =~= t.take(k) + seq![t[k]]);
    lemma_encode_utf8_concat(t.take(k), seq![t[k]]);
    vstd::utf8::char_is_scalar(t[k]);
    assert(seq![t[k]].drop_first() =~= Seq::<char>::empty());
    assert(encode_utf8(Seq::<char>::empty()) =~= Seq::<u8>::empty());
}

/// Longer prefixes have longer encodings.
proof fn lemma_byte_len_increasing(t: Seq<char>, j: int, k: int)
    requires
        0 <= j < k <= t.len(),
    ensures
        byte_len(t.take(j)) < byte_len(t.take(k)),
    decreases k - j,
{
    lemma_byte_len_step(t, k - 1);
    if j < k - 1 {
        lemma_byte_len_increasing(t, j, k - 1);
    }
}

/// The day of a commit time: its first ten bytes when they end on a
/// character boundary (`time.get(..10)`), else the whole text.
pub open spec fn date_of(t: Seq<char>) -> Seq<char> {
    if exists|k: int| 0 <= k <= t.len() && byte_len(#[trigger] t.take(k)) == 10 {
        t.take(choose|k: int| 0 <= k <= t.len() && byte_len(#[trigger] t.take(k)) == 10)
    } else {
        t
    }
}

/// The day of a commit time (see `date_of`).
pub fn date_prefix(t: &Vec<char>) -> (r: Vec<char>)
    ensures
        r@ == date_of(t@),
{
    let mut k: usize = 0;
    let mut b: usize = 0;
    assert(t@.take(0) =~= Seq::<char>::empty());
    assert(encode_utf8(Seq::<char>::empty()) =~= Seq::<u8>::empty());
    while k < t.len() && b < 10
        invariant
            k <= t@.len(),
            b as int == byte_len(t@.take(k as int)),
            k > 0 ==> byte_len(t@.take(k - 1)) < 10,
        decreases t@.len() - k,
    {
        let w = char_utf8_len(t[k]);
        proof {
            lemma_byte_len_step(t@, k as int);
        }
        b = b + w;
        k = k + 1;
    }
    if b == 10 {
        let mut r: Vec<char> = Vec::new();
        let mut i: usize = 0;
        while i < k
            invariant
                i <= k <= t@.len(),
                r@ == t@.take(i as int),
            decreases k - i,
        {
            r.push(t[i]);
            i = i + 1;
            assert(r@ =~= t@.take(i as int));
        }
        proof {
            let c = choose|j: int| 0 <= j <= t@.len() && byte_len(#[trigger] t@.take(j)) == 10;
            if c < k {
                lemma_byte_len_increasing(t@, c, k as int);
            } else if c > k {
                lemma_byte_len_increasing(t@, k as int, c);
            }
        }
        r
    } else {
        proof {
            assert forall|j: int| 0 <= j <= t@.len() implies byte_len(#[trigger] t@.take(j)) != 10 by {
                if j < k {
                    lemma_byte_len_increasing(t@, j, k as int);
                    if k > 0 && j < k - 1 {
                        lemma_byte_len_increasing(t@, j, k - 1);
                    }
                } else if j > k {
                    lemma_byte_len_increasing(t@, k as int, j);
                }
            }
        }
        let mut r: Vec<char> = Vec::new();
        append_chars(&mut r, t);
        r
    }
}

/// A changelog entry: the messages of the commits of one day.  The version
/// is the day as well.
pub struct ChangelogEntry {
    pub version: String,
    pub date: String,
    pub messages: Vec<String>,
}

pub open spec fn entry_view(e: ChangelogEntry) -> (Seq<char>, Seq<char>, Seq<Seq<char>>) {
    (e.version@, e.date@, e.messages@.map_values(|m: String| m@))
}

/// The changelog state: entries closed so far, the current day and its
/// messages.
pub open spec fn changelog_scan(cs: Seq<(Seq<char>, Seq<char>, Seq<char>, Seq<char>)>) -> (Seq<(Seq<char>, Seq<char>, Seq<Seq<char>>)>, Seq<char>, Seq<Seq<char>>)
    decreases cs.len(),
{
    if cs.len() == 0 {
        (seq![], seq![], seq![])
    } else {
        let (entries, day, msgs) = changelog_scan(cs.drop_last());
        let c = cs.last();
        let d = date_of(c.2);
        if d != day {
            let closed = if day.len() > 0 {
                entries.push((day, day, msgs))
            } else {
                entries
            };
            (closed, d, seq![c.3])
        } else {
            (entries, day, msgs.push(c.3))
        }
    }
}

/// The changelog of commits `cs` (newest first): consecutive commits of the
/// same day form one entry; commits at the start whose day is empty are
/// left out.
pub open spec fn changelog_of(cs: Seq<(Seq<char>, Seq<char>, Seq<char>, Seq<char>)>) -> Seq<(Seq<char>, Seq<char>, Seq<Seq<char>>)> {
    let (entries, day, msgs) = changelog_scan(cs);
    if day.len() > 0 {
        entries.push((day, day, msgs))
    } else {
        entries
    }
}

fn copy_strings(v: &Vec<String>) -> (r: Vec<String>)
    ensures
        r@.map_values(|m: String| m@) == v@.map_values(|m: String| m@),
{
    let mut r: Vec<String> = Vec::new();
    let mut i: usize = 0;
    while i < v.len()
        invariant
            i <= v@.len(),
            r@.map_values(|m: String| m@) == v@.take(i as int).map_values(|m: String| m@),
        decreases v@.len() - i,
    {
        let ghost before = r@.map_values(|m: String| m@);
        let c = v[i].clone();
        r.push(c);
        assert(r@.map_values(|m: String| m@) =~= before.push(v@[i as int]@));
        assert(v@.take(i + 1).map_values(|m: String| m@) =~= v@.take(i as int).map_values(
            |m: String| m@,
        ).push(v@[i as int]@));
        i = i + 1;
    }
    assert(v@.take(v@.len() as int) == v@);
    r
}

/// The changelog of the first `count` commits (see `changelog_of`).
pub fn generate_changelog(commits: &Vec<Commit>, count: usize) -> (r: Vec<ChangelogEntry>)
    ensures
        r@.map_values(|e: ChangelogEntry| entry_view(e)) == changelog_of(
            commit_views(commits@).take(
                if count < commits@.len() {
                    count as int
                } else {
                    commits@.len() as int
                },
            ),
        ),
{
    let n = if count < commits.len() {
        count
    } else {
        commits.len()
    };
    let ghost cs = commit_views(commits@).take(n as int);
    let mut entries: Vec<ChangelogEntry> = Vec::new();
    let mut day: Vec<char> = Vec::new();
    let mut msgs: Vec<String> = Vec::new();
    let mut i: usize = 0;
    assert(cs.take(0) =~= Seq::<(Seq<char>, Seq<char>, Seq<char>, Seq<char>)>::empty());
    assert(entries@.map_values(|e: ChangelogEntry| entry_view(e)) =~= Seq::<(Seq<char>, Seq<char>, Seq<Seq<char>>)>::empty());
    assert(msgs@.map_values(|m: String| m@) =~= Seq::<Seq<char>>::empty());
    while i < n
        invariant
            i <= n <= commits@.len(),
            cs == commit_views(commits@).take(n as int),
            changelog_scan(cs.take(i as int)) == (
                entries@.map_values(|e: ChangelogEntry| entry_view(e)),
                day@,
                msgs@.map_values(|m: String| m@),
            ),
        decreases n - i,
    {
        let c = &commits[i];
        assert(cs.take(i + 1).drop_last() =~= cs.take(i as int));
        assert(cs.take(i + 1).last() == c@);
        let d = date_prefix(&chars_of(c.time.as_str()));
        let ghost ev = entries@.map_values(|e: ChangelogEntry| entry_view(e));
        let ghost mv = msgs@.map_values(|m: String| m@);
        if !same_chars(&d, &day) {
            if day.len() > 0 {
                let e = ChangelogEntry {
                    version: string_of(&day),
                    date: string_of(&day),
                    messages: copy_strings(&msgs),
                };
                entries.push(e);
                assert(entries@.map_values(|e: ChangelogEntry| entry_view(e)) =~= ev.push(
                    (day@, day@, mv),
                ));
            }
            day = d;
            msgs = Vec::new();
        }
        let ghost mv2 = msgs@.map_values(|m: String| m@);
        msgs.push(c.message.clone());
        assert(msgs@.map_values(|m: String| m@) =~= mv2.push(c.message@));
        i = i + 1;
    }
    assert(cs.take(n as int) == cs);
    if day.len() > 0 {
        let ghost ev = entries@.map_values(|e: ChangelogEntry| entry_view(e));
        let ghost mv = msgs@.map_values(|m: String| m@);
        let e = ChangelogEntry { version: string_of(&day), date: string_of(&day), messages: msgs };
        entries.push(e);
        assert(entries@.map_values(|e: ChangelogEntry| entry_view(e)) =~= ev.push((day@, day@, mv)));
    }
    entries
}

/// The history list holds at most this many commits.
pub const COMMIT_LIST_LIMIT: usize = 100;

/// The query tables are filled from at most this many commits.
pub const QUERY_COMMIT_LIMIT: usize = 200;

/// Adds a commit record to a list that is read up to `limit` commits and
/// says whether the list is full.
pub fn record_commit(
    commits: &mut Vec<Commit>,
    limit: usize,
    hash: String,
    author: Option<String>,
    message: Option<String>,
    secs: i64,
) -> (full: bool)
    ensures
        final(commits)@.len() == old(commits)@.len() + 1,
        commit_views(final(commits)@).drop_last() == commit_views(old(commits)@),
        final(commits)@.last().hash@ == hash@,
        final(commits)@.last().author@ == match author {
            Some(a) => a@,
            None => "未知"@,
        },
        final(commits)@.last().message@ == match message {
            Some(m) => m@,
            None => Seq::<char>::empty(),
        },
        final(commits)@.last().time@ == commit_time_text(secs),
        full == (final(commits)@.len() >= limit),
{
    let ghost before = commit_views(commits@);
    commits.push(make_commit(hash, author, message, secs));
    assert(commit_views(commits@).drop_last() =~= before);
    commits.len() >= limit
}

/// A commit of the history graph: the commit record and its parents.
pub struct GraphCommit {
    pub commit: Commit,
    pub parent_hashes: Vec<String>,
}

/// Adds a commit of the history graph and says whether the graph is full
/// (100 commits).
pub fn record_graph_commit(
    graph: &mut Vec<GraphCommit>,
    hash: String,
    author: Option<String>,
    message: Option<String>,
    secs: i64,
    parent_hashes: Vec<String>,
) -> (full: bool)
    ensures
        final(graph)@.len() == old(graph)@.len() + 1,
        final(graph)@.drop_last() == old(graph)@,
        final(graph)@.last().commit.hash@ == hash@,
        final(graph)@.last().commit.author@ == match author {
            Some(a) => a@,
            None => "未知"@,
        },
        final(graph)@.last().commit.message@ == match message {
            Some(m) => m@,
            None => Seq::<char>::empty(),
        },
        final(graph)@.last().commit.time@ == commit_time_text(secs),
        final(graph)@.last().parent_hashes@ == parent_hashes@,
        full == (final(graph)@.len() >= 100),
{
    let ghost before = graph@;
    graph.push(GraphCommit { commit: make_commit(hash, author, message, secs), parent_hashes });
    assert(graph@.drop_last() =~= before);
    graph.len() >= COMMIT_LIST_LIMIT
}

/// Calls `chrono::Local::now()` and formats it with
/// `Stash %Y-%m-%d %H:%M:%S`.  The time depends on the clock and the
/// machine's time zone, so nothing is said of the result but that it
/// starts with the literal part of the format.
#[verifier::external_body]
fn local_stash_label() -> (r: String)
    ensures
        r@.len() >= 6,
        r@.take(6) == "Stash "@,
{
    chrono::Local::now().format("Stash %Y-%m-%d %H:%M:%S").to_string()
}

/// The message of a new stash: the one given, or `Stash ` followed by the
/// local date and time.
pub fn stash_message(message: Option<String>) -> (r: String)
    ensures
        message matches Some(m) ==> r@ == m@,
        message is None ==> r@.len() >= 6 && r@.take(6) == "Stash "@,
{
    match message {
        Some(m) => m,
        None => local_stash_label(),
    }
}

proof fn lemma_keep_all_kept(cs: Seq<(Seq<char>, Seq<char>, Seq<char>, Seq<char>)>, keep: spec_fn((Seq<char>, Seq<char>, Seq<char>, Seq<char>)) -> bool)
    ensures
        forall|i: int| 0 <= i < keep_commits(cs, keep).len() ==> keep(#[trigger] keep_commits(cs, keep)[i]),
        forall|i: int| 0 <= i < keep_commits(cs, keep).len() ==> cs.contains(#[trigger] keep_commits(cs, keep)[i]),
    decreases cs.len(),
{
    if cs.len() > 0 {
        let d = cs.drop_last();
        lemma_keep_all_kept(d, keep);
        let r = keep_commits(d, keep);
        let w = keep_commits(cs, keep);
        assert forall|i: int| 0 <= i < w.len() implies cs.contains(#[trigger] w[i]) by {
            if i < r.len() {
                assert(w[i] == r[i]);
                assert(d.contains(r[i]));
                let a = choose|a: int| 0 <= a < d.len() && d[a] == r[i];
                assert(cs[a] == r[i]);
            } else {
                assert(cs[cs.len() - 1] == w[i]);
            }
        }
    }
}

/// The commit search gives at most 50 commits, each one of the searched
/// commits whose message or author holds the query, ignoring case.
pub proof fn law_search_results_match(cs: Seq<(Seq<char>, Seq<char>, Seq<char>, Seq<char>)>, query: Seq<char>)
    ensures
        search_results(cs, query).len() <= 50,
        forall|i: int|
            0 <= i < search_results(cs, query).len() ==> search_matches(#[trigger] search_results(cs, query)[i], query)
                && cs.contains(search_results(cs, query)[i]),
{
    let keep = |c: (Seq<char>, Seq<char>, Seq<char>, Seq<char>)| search_matches(c, query);
    let m = keep_commits(cs, keep);
    lemma_keep_all_kept(cs, keep);
    assert forall|i: int| 0 <= i < search_results(cs, query).len() implies search_matches(
        #[trigger] search_results(cs, query)[i],
        query,
    ) && cs.contains(search_results(cs, query)[i]) by {
        assert(search_results(cs, query)[i] == m[i]);
        assert(keep(m[i]));
    }
}

/// The history filter keeps, in order, exactly those commits that pass it:
/// each one kept passes, and each one left out does not.
pub proof fn law_filter_keeps_matching_commits(
    cs: Seq<(Seq<char>, Seq<char>, Seq<char>, Seq<char>)>,
    author: Option<Seq<char>>,
    date_from: Option<Seq<char>>,
    date_to: Option<Seq<char>>,
)
    ensures
        ({
            let keep = |c: (Seq<char>, Seq<char>, Seq<char>, Seq<char>)| filter_matches(c, author, date_from, date_to);
            &&& forall|i: int| 0 <= i < keep_commits(cs, keep).len() ==> filter_matches(
                #[trigger] keep_commits(cs, keep)[i],
                author,
                date_from,
                date_to,
            )
            &&& forall|i: int| 0 <= i < keep_commits(cs, keep).len() ==> cs.contains(#[trigger] keep_commits(cs, keep)[i])
            &&& forall|i: int| 0 <= i < cs.len() && filter_matches(#[trigger] cs[i], author, date_from, date_to) ==> keep_commits(cs, keep).contains(cs[i])
        }),
{
    let keep = |c: (Seq<char>, Seq<char>, Seq<char>, Seq<char>)| filter_matches(c, author, date_from, date_to);
    lemma_keep_all_kept(cs, keep);
    lemma_keep_has_kept(cs, keep);
    assert forall|i: int| 0 <= i < keep_commits(cs, keep).len() implies filter_matches(
        #[trigger] keep_commits(cs, keep)[i],
        author,
        date_from,
        date_to,
    ) by {
        assert(keep(keep_commits(cs, keep)[i]));
    }
    assert forall|i: int| 0 <= i < cs.len() && filter_matches(#[trigger] cs[i], author, date_from, date_to) implies keep_commits(cs, keep).contains(cs[i]) by {
        assert(keep(cs[i]));
    }
}

proof fn lemma_keep_has_kept(cs: Seq<(Seq<char>, Seq<char>, Seq<char>, Seq<char>)>, keep: spec_fn((Seq<char>, Seq<char>, Seq<char>, Seq<char>)) -> bool)
    ensures
        forall|i: int| 0 <= i < cs.len() && keep(#[trigger] cs[i]) ==> keep_commits(cs, keep).contains(cs[i]),
    decreases cs.len(),
{
    if cs.len() > 0 {
        let d = cs.drop_last();
        lemma_keep_has_kept(d, keep);
        let r = keep_commits(d, keep);
        let w = keep_commits(cs, keep);
        assert forall|i: int| 0 <= i < cs.len() && keep(#[trigger] cs[i]) implies w.contains(cs[i]) by {
            if i < d.len() {
                assert(d[i] == cs[i]);
                assert(r.contains(d[i]));
                let k = choose|k: int| 0 <= k < r.len() && r[k] == d[i];
                assert(w[k] == r[k]);
            } else {
                assert(cs[i] == cs.last());
                assert(w[w.len() - 1] == cs.last());
            }
        }
    }
}

/// The messages of changelog entries, one entry after another.
pub open spec fn entry_messages(es: Seq<(Seq<char>, Seq<char>, Seq<Seq<char>>)>) -> Seq<Seq<char>>
    decreases es.len(),
{
    if es.len() == 0 {
        seq![]
    } else {
        entry_messages(es.drop_last()) + es.last().2
    }
}

proof fn lemma_date_nonempty(t: Seq<char>)
    requires
        t.len() > 0,
    ensures
        date_of(t).len() > 0,
{
    if exists|k: int| 0 <= k <= t.len() && byte_len(#[trigger] t.take(k)) == 10 {
        let k = choose|k: int| 0 <= k <= t.len() && byte_len(#[trigger] t.take(k)) == 10;
        if k == 0 {
            assert(t.take(0) =~= Seq::<char>::empty());
            assert(encode_utf8(Seq::<char>::empty()) =~= Seq::<u8>::empty());
        }
    }
}

proof fn lemma_changelog_scan(cs: Seq<(Seq<char>, Seq<char>, Seq<char>, Seq<char>)>)
    requires
        forall|i: int| 0 <= i < cs.len() ==> (#[trigger] cs[i]).2.len() > 0,
    ensures
        ({
            let (entries, day, msgs) = changelog_scan(cs);
            &&& entry_messages(entries) + msgs == cs.map_values(|c: (Seq<char>, Seq<char>, Seq<char>, Seq<char>)| c.3)
            &&& (cs.len() > 0 <==> day.len() > 0)
            &&& day.len() == 0 ==> entries.len() == 0 && msgs.len() == 0
            &&& forall|i: int| 0 <= i < entries.len() ==> (#[trigger] entries[i]).0 == entries[i].1 && entries[i].1.len() > 0
            &&& forall|i: int| 0 <= i < entries.len() - 1 ==> (#[trigger] entries[i]).1 != entries[i + 1].1
            &&& entries.len() > 0 ==> entries.last().1 != day
        }),
    decreases cs.len(),
{
    let msg = |c: (Seq<char>, Seq<char>, Seq<char>, Seq<char>)| c.3;
    if cs.len() == 0 {
        assert(cs.map_values(msg) =~= Seq::<Seq<char>>::empty());
        assert(entry_messages(Seq::<(Seq<char>, Seq<char>, Seq<Seq<char>>)>::empty()) + Seq::<Seq<char>>::empty()
            =~= Seq::<Seq<char>>::empty());
    } else {
        let d0 = cs.drop_last();
        assert forall|i: int| 0 <= i < d0.len() implies (#[trigger] d0[i]).2.len() > 0 by {
            assert(d0[i] == cs[i]);
        }
        lemma_changelog_scan(d0);
        let (entries, day, msgs) = changelog_scan(d0);
        let c = cs.last();
        assert(c == cs[cs.len() - 1]);
        lemma_date_nonempty(c.2);
        let d = date_of(c.2);
        assert(cs.map_values(msg) =~= d0.map_values(msg).push(c.3));
        if d != day {
            if day.len() > 0 {
                let closed = entries.push((day, day, msgs));
                assert(closed.drop_last() =~= entries);
                assert(entry_messages(closed) + seq![c.3] =~= entry_messages(entries) + msgs + seq![c.3]);
                assert forall|i: int| 0 <= i < closed.len() - 1 implies (#[trigger] closed[i]).1 != closed[i + 1].1 by {
                    if i == closed.len() - 2 {
                        assert(closed[i] == entries.last());
                    } else {
                        assert(closed[i] == entries[i] && closed[i + 1] == entries[i + 1]);
                    }
                }
                assert forall|i: int| 0 <= i < closed.len() implies (#[trigger] closed[i]).0 == closed[i].1 && closed[i].1.len() > 0 by {
                    if i < entries.len() {
                        assert(closed[i] == entries[i]);
                    }
                }
            } else {
                assert(entry_messages(entries) + seq![c.3] =~= seq![c.3]);
                assert(d0.len() == 0);
                assert(d0.map_values(msg) =~= Seq::<Seq<char>>::empty());
            }
        } else {
            assert(entry_messages(entries) + msgs.push(c.3) =~= (entry_messages(entries) + msgs).push(c.3));
        }
    }
}

/// The changelog keeps every message of the commits it covers, in order,
/// as long as every commit has a time text: the entries' messages, one
/// entry after another, are the commits' messages.  Each entry is named by
/// its (nonempty) day, and neighbouring entries are of different days.
pub proof fn law_changelog_keeps_every_message(cs: Seq<(Seq<char>, Seq<char>, Seq<char>, Seq<char>)>)
    requires
        forall|i: int| 0 <= i < cs.len() ==> (#[trigger] cs[i]).2.len() > 0,
    ensures
        entry_messages(changelog_of(cs)) == cs.map_values(|c: (Seq<char>, Seq<char>, Seq<char>, Seq<char>)| c.3),
        forall|i: int| 0 <= i < changelog_of(cs).len() ==> (#[trigger] changelog_of(cs)[i]).0 == changelog_of(cs)[i].1
            && changelog_of(cs)[i].1.len() > 0,
        forall|i: int| 0 <= i < changelog_of(cs).len() - 1 ==> (#[trigger] changelog_of(cs)[i]).1 != changelog_of(cs)[i + 1].1,
{
    lemma_changelog_scan(cs);
    let (entries, day, msgs) = changelog_scan(cs);
    if day.len() > 0 {
        let all = entries.push((day, day, msgs));
        assert(all.drop_last() =~= entries);
        assert forall|i: int| 0 <= i < all.len() - 1 implies (#[trigger] all[i]).1 != all[i + 1].1 by {
            if i == all.len() - 2 {
                assert(all[i] == entries.last());
            } else {
                assert(all[i] == entries[i] && all[i + 1] == entries[i + 1]);
            }
        }
        assert forall|i: int| 0 <= i < all.len() implies (#[trigger] all[i]).0 == all[i].1 && all[i].1.len() > 0 by {
            if i < entries.len() {
                assert(all[i] == entries[i]);
            }
        }
    } else {
        assert(entry_messages(entries) + msgs =~= entry_messages(entries));
    }
}

/// The commit search looks at the message and the author only: every
/// commit it gives has the query (ignoring case) in its message or in its
/// author name, and when it gives fewer than 50 commits, it gives every
/// searched commit that has.
pub proof fn law_search_is_by_message_or_author(cs: Seq<(Seq<char>, Seq<char>, Seq<char>, Seq<char>)>, query: Seq<char>)
    ensures
        forall|i: int| 0 <= i < search_results(cs, query).len() ==> ({
            let c = #[trigger] search_results(cs, query)[i];
            contains_text(lowercase(c.3), lowercase(query)) || contains_text(lowercase(c.1), lowercase(query))
        }),
        search_results(cs, query).len() < 50 ==> forall|i: int|
            0 <= i < cs.len() && (contains_text(lowercase((#[trigger] cs[i]).3), lowercase(query))
                || contains_text(lowercase(cs[i].1), lowercase(query))) ==> search_results(cs, query).contains(cs[i]),
{
    let keep = |c: (Seq<char>, Seq<char>, Seq<char>, Seq<char>)| search_matches(c, query);
    let m = keep_commits(cs, keep);
    lemma_keep_all_kept(cs, keep);
    lemma_keep_has_kept(cs, keep);
    assert forall|i: int| 0 <= i < search_results(cs, query).len() implies ({
        let c = #[trigger] search_results(cs, query)[i];
        contains_text(lowercase(c.3), lowercase(query)) || contains_text(lowercase(c.1), lowercase(query))
    }) by {
        assert(search_results(cs, query)[i] == m[i]);
        assert(keep(m[i]));
    }
    if search_results(cs, query).len() < 50 {
        assert(search_results(cs, query) == m);
        assert forall|i: int|
            0 <= i < cs.len() && (contains_text(lowercase((#[trigger] cs[i]).3), lowercase(query))
                || contains_text(lowercase(cs[i].1), lowercase(query))) implies search_results(cs, query).contains(cs[i]) by {
            assert(keep(cs[i]));
        }
    }
}

/// The author filter looks at the author name only: with an author given,
/// every commit kept has it (ignoring case) in its author name, and without
/// date bounds every commit whose author name has it is kept.
pub proof fn law_author_filter_is_on_the_author(
    cs: Seq<(Seq<char>, Seq<char>, Seq<char>, Seq<char>)>,
    a: Seq<char>,
    date_from: Option<Seq<char>>,
    date_to: Option<Seq<char>>,
)
    ensures
        ({
            let kept = keep_commits(
                cs,
                |c: (Seq<char>, Seq<char>, Seq<char>, Seq<char>)| filter_matches(c, Some(a), date_from, date_to),
            );
            &&& forall|i: int| 0 <= i < kept.len() ==> contains_text(lowercase((#[trigger] kept[i]).1), lowercase(a))
            &&& (date_from is None && date_to is None) ==> forall|i: int|
                0 <= i < cs.len() && contains_text(lowercase((#[trigger] cs[i]).1), lowercase(a)) ==> kept.contains(cs[i])
        }),
{
    let keep = |c: (Seq<char>, Seq<char>, Seq<char>, Seq<char>)| filter_matches(c, Some(a), date_from, date_to);
    let kept = keep_commits(cs, keep);
    lemma_keep_all_kept(cs, keep);
    lemma_keep_has_kept(cs, keep);
    assert forall|i: int| 0 <= i < kept.len() implies contains_text(lowercase((#[trigger] kept[i]).1), lowercase(a)) by {
        assert(keep(kept[i]));
    }
    if date_from is None && date_to is None {
        assert forall|i: int| 0 <= i < cs.len() && contains_text(lowercase((#[trigger] cs[i]).1), lowercase(a)) implies kept.contains(cs[i]) by {
            assert(keep(cs[i]));
        }
    }
}

} // verus!
