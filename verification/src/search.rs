//! Searching the changed lines of the history, following one file through
//! it, and the text of a comparison between two commits.

use vstd::prelude::*;
use crate::analysis::{capped_walk, first_n, law_capped_walk_keeps_the_first, somes};
use crate::diff::{decode_lossy, utf8_lossy};
use crate::history::{commit_time, commit_time_text, lowercase, to_lowercase};
use crate::text::{chars_of, contains_text, contains_text_exec, strict_text, strict_text_of, string_of};

verus! {

/// A changed file of a commit as the line search reads it: its path as
/// git2 gives it, and the raw lines of its printed patch when there is one.
pub struct SearchFile {
    pub path: Option<String>,
    pub lines: Option<Vec<Vec<u8>>>,
}

/// A commit as the line search reads it.
pub struct SearchCommit {
    pub hash: String,
    pub author: Option<String>,
    pub files: Vec<SearchFile>,
}

/// A changed line that matched the search.
pub struct SearchResult {
    pub commit_hash: String,
    pub author: String,
    pub time: String,
    pub file_path: String,
    pub line_number: usize,
    pub content: String,
}

pub open spec fn result_view(r: SearchResult) -> (Seq<char>, Seq<char>, Seq<char>, Seq<char>, int, Seq<char>) {
    (r.commit_hash@, r.author@, r.time@, r.file_path@, r.line_number as int, r.content@)
}

/// The search stops after the commit that brings the results to this many.
pub const SEARCH_RESULT_LIMIT: usize = 200;

/// The text of an optional string, empty when there is none.
pub open spec fn text_or_empty(s: Option<String>) -> Seq<char> {
    match s {
        Some(t) => t@,
        None => Seq::empty(),
    }
}

/// The author shown for a commit, `未知` when git2 gives no name.
pub open spec fn author_or_unknown(s: Option<String>) -> Seq<char> {
    match s {
        Some(t) => t@,
        None => "未知"@,
    }
}

/// The matches among the lines `lines` of one file: each line whose
/// lower-cased text (as UTF-8; invalid lines read as empty) holds the
/// lower-cased query, numbered from 1 in the order they come.
pub open spec fn file_hits(
    hash: Seq<char>,
    author: Seq<char>,
    path: Seq<char>,
    lines: Seq<Seq<u8>>,
    query: Seq<char>,
) -> Seq<(Seq<char>, Seq<char>, Seq<char>, Seq<char>, int, Seq<char>)>
    decreases lines.len(),
{
    if lines.len() == 0 {
        seq![]
    } else {
        let before = file_hits(hash, author, path, lines.drop_last(), query);
        let text = strict_text_of(lines.last());
        if contains_text(lowercase(text), lowercase(query)) {
            before.push((hash, author, Seq::empty(), path, before.len() + 1int, text))
        } else {
            before
        }
    }
}

/// The matches of a commit, one file after another; a file without a
/// patch has none.
pub open spec fn commit_hits(files: Seq<SearchFile>, hash: Seq<char>, author: Seq<char>, query: Seq<char>) -> Seq<(Seq<char>, Seq<char>, Seq<char>, Seq<char>, int, Seq<char>)>
    decreases files.len(),
{
    if files.len() == 0 {
        seq![]
    } else {
        commit_hits(files.drop_last(), hash, author, query) + match files.last().lines {
            Some(ls) => file_hits(
                hash,
                author,
                text_or_empty(files.last().path),
                ls@.map_values(|l: Vec<u8>| l@),
                query,
            ),
            None => seq![],
        }
    }
}

/// Adds the matches of one file to `results`.
fn search_file(
    results: &mut Vec<SearchResult>,
    hash: &String,
    author: &String,
    path: &String,
    lines: &Vec<Vec<u8>>,
    query: &String,
)
    ensures
        final(results)@.map_values(|r: SearchResult| result_view(r)) == old(results)@.map_values(
            |r: SearchResult| result_view(r),
        ) + file_hits(hash@, author@, path@, lines@.map_values(|l: Vec<u8>| l@), query@),
{
    let ghost start = results@.map_values(|r: SearchResult| result_view(r));
    let ghost lv = lines@.map_values(|l: Vec<u8>| l@);
    let needle = chars_of(to_lowercase(query.as_str()).as_str());
    let mut count: usize = 0;
    let mut i: usize = 0;
    assert(lv.take(0) =~= Seq::<Seq<u8>>::empty());
    assert(results@.map_values(|r: SearchResult| result_view(r)) =~= start + file_hits(
        hash@,
        author@,
        path@,
        lv.take(0),
        query@,
    ));
    while i < lines.len()
        invariant
            i <= lines@.len(),
            lv == lines@.map_values(|l: Vec<u8>| l@),
            needle@ == lowercase(query@),
            count as int == file_hits(hash@, author@, path@, lv.take(i as int), query@).len(),
            count <= i,
            results@.map_values(|r: SearchResult| result_view(r)) == start + file_hits(
                hash@,
                author@,
                path@,
                lv.take(i as int),
                query@,
            ),
        decreases lines@.len() - i,
    {
        assert(lv.take(i + 1).drop_last() =~= lv.take(i as int));
        assert(lv.take(i + 1).last() == lines@[i as int]@);
        let content = strict_text(&lines[i]);
        let hay = chars_of(to_lowercase(content.as_str()).as_str());
        if contains_text_exec(&hay, &needle) {
            count = count + 1;
            let ghost prev = results@.map_values(|r: SearchResult| result_view(r));
            results.push(
                SearchResult {
                    commit_hash: hash.clone(),
                    author: author.clone(),
                    time: String::new(),
                    file_path: path.clone(),
                    line_number: count,
                    content,
                },
            );
            assert(results@.map_values(|r: SearchResult| result_view(r)) =~= prev.push(
                (hash@, author@, Seq::<char>::empty(), path@, count as int, strict_text_of(lv[i as int])),
            ));
        }
        i = i + 1;
    }
    assert(lv.take(lv.len() as int) =~= lv);
}

/// Adds the matches of one commit to `results` and says whether the search
/// should stop there: a line matches when its lower-cased text holds the
/// lower-cased `query`; matches are numbered from 1 within each file, carry
/// the commit, its author (`未知` without a name), the file's path (empty
/// without one), an empty time and the line's text.  The search stops once
/// there are at least 200 results.
pub fn search_commit(results: &mut Vec<SearchResult>, query: &String, commit: &SearchCommit) -> (stop: bool)
    ensures
        final(results)@.map_values(|r: SearchResult| result_view(r)) == old(results)@.map_values(
            |r: SearchResult| result_view(r),
        ) + commit_hits(commit.files@, commit.hash@, author_or_unknown(commit.author), query@),
        stop == (final(results)@.len() >= 200),
{
    let ghost start = results@.map_values(|r: SearchResult| result_view(r));
    let ghost files = commit.files@;
    let author: String = match &commit.author {
        Some(a) => a.clone(),
        None => string_of(&chars_of("未知")),
    };
    let mut k: usize = 0;
    assert(files.take(0) =~= Seq::<SearchFile>::empty());
    assert(results@.map_values(|r: SearchResult| result_view(r)) =~= start + commit_hits(
        files.take(0),
        commit.hash@,
        author@,
        query@,
    ));
    while k < commit.files.len()
        invariant
            k <= files.len(),
            files == commit.files@,
            author@ == author_or_unknown(commit.author),
            results@.map_values(|r: SearchResult| result_view(r)) == start + commit_hits(
                files.take(k as int),
                commit.hash@,
                author@,
                query@,
            ),
        decreases files.len() - k,
    {
        let f = &commit.files[k];
        assert(files.take(k + 1).drop_last() =~= files.take(k as int));
        assert(files.take(k + 1).last() == *f);
        let ghost before = results@.map_values(|r: SearchResult| result_view(r));
        match &f.lines {
            Some(ls) => {
                let path: String = match &f.path {
                    Some(p) => p.clone(),
                    None => String::new(),
                };
                search_file(results, &commit.hash, &author, &path, ls, query);
            },
            None => {},
        }
        assert(results@.map_values(|r: SearchResult| result_view(r)) =~= start + commit_hits(
            files.take(k + 1),
            commit.hash@,
            author@,
            query@,
        ));
        k = k + 1;
    }
    assert(files.take(files.len() as int) =~= files);
    results.len() >= SEARCH_RESULT_LIMIT
}

proof fn lemma_file_hits(
    hash: Seq<char>,
    author: Seq<char>,
    path: Seq<char>,
    lines: Seq<Seq<u8>>,
    query: Seq<char>,
)
    ensures
        forall|i: int|
            0 <= i < file_hits(hash, author, path, lines, query).len() ==> {
                let h = #[trigger] file_hits(hash, author, path, lines, query)[i];
                &&& contains_text(lowercase(h.5), lowercase(query))
                &&& h.4 == i + 1
                &&& h.0 == hash && h.1 == author && h.3 == path && h.2.len() == 0
            },
    decreases lines.len(),
{
    if lines.len() > 0 {
        lemma_file_hits(hash, author, path, lines.drop_last(), query);
        let before = file_hits(hash, author, path, lines.drop_last(), query);
        let w = file_hits(hash, author, path, lines, query);
        assert forall|i: int| 0 <= i < w.len() implies {
            let h = #[trigger] w[i];
            &&& contains_text(lowercase(h.5), lowercase(query))
            &&& h.4 == i + 1
            &&& h.0 == hash && h.1 == author && h.3 == path && h.2.len() == 0
        } by {
            if i < before.len() {
                assert(w[i] == before[i]);
            }
        }
    }
}

/// The matches of a commit's file: each one holds the query (ignoring
/// case), and they are numbered 1, 2, 3, ... in the order they come.
pub proof fn law_file_hits_match_and_count(
    hash: Seq<char>,
    author: Seq<char>,
    path: Seq<char>,
    lines: Seq<Seq<u8>>,
    query: Seq<char>,
)
    ensures
        forall|i: int|
            0 <= i < file_hits(hash, author, path, lines, query).len() ==> contains_text(
                lowercase((#[trigger] file_hits(hash, author, path, lines, query)[i]).5),
                lowercase(query),
            ) && file_hits(hash, author, path, lines, query)[i].4 == i + 1,
{
    lemma_file_hits(hash, author, path, lines, query);
}

/// The index of the first changed file whose path (empty when git2 gives
/// none) is `file_path`.
pub open spec fn first_path_match(paths: Seq<Option<String>>, file_path: Seq<char>, i: int) -> Option<int>
    decreases paths.len() - i,
{
    if i < 0 || i >= paths.len() {
        None
    } else if text_or_empty(paths[i]) == file_path {
        Some(i)
    } else {
        first_path_match(paths, file_path, i + 1)
    }
}

/// The index of the first changed file of a commit whose path is
/// `file_path`, if any.
pub fn matching_delta(paths: &Vec<Option<String>>, file_path: &String) -> (r: Option<usize>)
    ensures
        match r {
            Some(i) => first_path_match(paths@, file_path@, 0) == Some(i as int),
            None => first_path_match(paths@, file_path@, 0) is None,
        },
{
    let empty = String::new();
    let mut i: usize = 0;
    while i < paths.len()
        invariant
            i <= paths@.len(),
            empty@ == Seq::<char>::empty(),
            first_path_match(paths@, file_path@, 0) == first_path_match(paths@, file_path@, i as int),
        decreases paths@.len() - i,
    {
        let same = match &paths[i] {
            Some(p) => *p == *file_path,
            None => *file_path == empty,
        };
        if same {
            return Some(i);
        }
        i = i + 1;
    }
    None
}

/// One commit of a file's timeline.
pub struct TimelineEntry {
    pub commit_hash: String,
    pub author: String,
    pub time: String,
    pub message: String,
    pub diff: String,
}

pub open spec fn timeline_view(e: TimelineEntry) -> (Seq<char>, Seq<char>, Seq<char>, Seq<char>, Seq<char>) {
    (e.commit_hash@, e.author@, e.time@, e.message@, e.diff@)
}

/// The timeline stops once it holds this many commits.
pub const TIMELINE_LIMIT: usize = 50;

/// The bytes of the lines `ls`, one after another.
pub open spec fn joined_bytes(ls: Seq<Seq<u8>>) -> Seq<u8>
    decreases ls.len(),
{
    if ls.len() == 0 {
        seq![]
    } else {
        joined_bytes(ls.drop_last()) + ls.last()
    }
}

/// The bytes of the lines `ls`, one after another.
fn join_bytes(ls: &Vec<Vec<u8>>) -> (r: Vec<u8>)
    ensures
        r@ == joined_bytes(ls@.map_values(|l: Vec<u8>| l@)),
{
    let ghost lv = ls@.map_values(|l: Vec<u8>| l@);
    let mut out: Vec<u8> = Vec::new();
    let mut i: usize = 0;
    assert(lv.take(0) =~= Seq::<Seq<u8>>::empty());
    while i < ls.len()
        invariant
            i <= ls@.len(),
            lv == ls@.map_values(|l: Vec<u8>| l@),
            out@ == joined_bytes(lv.take(i as int)),
        decreases ls@.len() - i,
    {
        assert(lv.take(i + 1).drop_last() =~= lv.take(i as int));
        assert(lv.take(i + 1).last() == ls@[i as int]@);
        let line = &ls[i];
        let ghost before = out@;
        let mut k: usize = 0;
        while k < line.len()
            invariant
                k <= line@.len(),
                out@ == before + line@.take(k as int),
            decreases line@.len() - k,
        {
            out.push(line[k]);
            k = k + 1;
            assert(line@.take(k as int) =~= line@.take(k - 1).push(line@[k - 1]));
        }
        assert(line@.take(line@.len() as int) =~= line@);
        i = i + 1;
    }
    assert(lv.take(lv.len() as int) =~= lv);
    out
}

/// The timeline entry of a commit that changed the file: its author
/// (`未知` without a name), time, message (empty without one), and the
/// file's patch lines decoded as lossy UTF-8 (empty without a patch).
pub open spec fn timeline_entry_of(
    hash: Seq<char>,
    author: Option<String>,
    message: Option<String>,
    secs: i64,
    patch: Option<Vec<Vec<u8>>>,
) -> (Seq<char>, Seq<char>, Seq<char>, Seq<char>, Seq<char>) {
    (
        hash,
        author_or_unknown(author),
        commit_time_text(secs),
        text_or_empty(message),
        match patch {
            Some(ls) => utf8_lossy(joined_bytes(ls@.map_values(|l: Vec<u8>| l@))),
            None => Seq::empty(),
        },
    )
}

/// Adds a commit that changed the followed file to its timeline and says
/// whether the timeline is full (50 commits).
pub fn add_timeline_entry(
    entries: &mut Vec<TimelineEntry>,
    hash: String,
    author: Option<String>,
    message: Option<String>,
    secs: i64,
    patch: Option<Vec<Vec<u8>>>,
) -> (full: bool)
    ensures
        final(entries)@.map_values(|e: TimelineEntry| timeline_view(e)) == old(entries)@.map_values(
            |e: TimelineEntry| timeline_view(e),
        ).push(timeline_entry_of(hash@, author, message, secs, patch)),
        full == (final(entries)@.len() >= 50),
        old(entries)@.len() < 50 ==> final(entries)@.len() <= 50,
{
    let ghost spec_entry = timeline_entry_of(hash@, author, message, secs, patch);
    let diff = match &patch {
        Some(ls) => decode_lossy(&join_bytes(ls)),
        None => String::new(),
    };
    let author_text = match author {
        Some(a) => a,
        None => string_of(&chars_of("未知")),
    };
    let message_text = match message {
        Some(m) => m,
        None => String::new(),
    };
    let ghost before = entries@.map_values(|e: TimelineEntry| timeline_view(e));
    entries.push(
        TimelineEntry {
            commit_hash: hash,
            author: author_text,
            time: commit_time(secs),
            message: message_text,
            diff,
        },
    );
    assert(entries@.map_values(|e: TimelineEntry| timeline_view(e)) =~= before.push(spec_entry));
    entries.len() >= TIMELINE_LIMIT
}

/// The texts of the lines `ls` (each read as UTF-8; an invalid line reads
/// as empty), one after another.
pub open spec fn strict_joined(ls: Seq<Seq<u8>>) -> Seq<char>
    decreases ls.len(),
{
    if ls.len() == 0 {
        seq![]
    } else {
        strict_joined(ls.drop_last()) + strict_text_of(ls.last())
    }
}

/// The text of a comparison between two commits: the printed lines of
/// their diff, each read as UTF-8 (an invalid line reads as empty).
pub fn comparison_text(lines: &Vec<Vec<u8>>) -> (r: String)
    ensures
        r@ == strict_joined(lines@.map_values(|l: Vec<u8>| l@)),
{
    let ghost lv = lines@.map_values(|l: Vec<u8>| l@);
    let mut out: Vec<char> = Vec::new();
    let mut i: usize = 0;
    assert(lv.take(0) =~= Seq::<Seq<u8>>::empty());
    while i < lines.len()
        invariant
            i <= lines@.len(),
            lv == lines@.map_values(|l: Vec<u8>| l@),
            out@ == strict_joined(lv.take(i as int)),
        decreases lines@.len() - i,
    {
        assert(lv.take(i + 1).drop_last() =~= lv.take(i as int));
        assert(lv.take(i + 1).last() == lines@[i as int]@);
        let t = strict_text(&lines[i]);
        let tc = chars_of(t.as_str());
        crate::text::append_chars(&mut out, &tc);
        i = i + 1;
    }
    assert(lv.take(lv.len() as int) =~= lv);
    string_of(&out)
}

/// What one commit of the walk offers the timeline of `file_path`: its
/// entry when one of its changed files has that path (`matching_delta`),
/// nothing otherwise.  `patch` is the printed patch of that file.
pub open spec fn timeline_offer(
    hash: Seq<char>,
    author: Option<String>,
    message: Option<String>,
    secs: i64,
    paths: Seq<Option<String>>,
    patch: Option<Vec<Vec<u8>>>,
    file_path: Seq<char>,
) -> Option<(Seq<char>, Seq<char>, Seq<char>, Seq<char>, Seq<char>)> {
    if first_path_match(paths, file_path, 0) is Some {
        Some(timeline_entry_of(hash, author, message, secs, patch))
    } else {
        None
    }
}

/// One commit of the walk as the timeline reads it: its hash, git2's author
/// name and message, its time, the paths of its changed files, and the
/// printed patch of the file followed.
pub type WalkedCommit = (Seq<char>, Option<String>, Option<String>, i64, Seq<Option<String>>, Option<Vec<Vec<u8>>>);

/// What each commit of `walk` offers the timeline of `file_path`.
pub open spec fn timeline_offers(walk: Seq<WalkedCommit>, file_path: Seq<char>) -> Seq<Option<(Seq<char>, Seq<char>, Seq<char>, Seq<char>, Seq<char>)>> {
    walk.map_values(|w: WalkedCommit| timeline_offer(w.0, w.1, w.2, w.3, w.4, w.5, file_path))
}

/// A timeline read commit by commit over a walk (an entry added by
/// `add_timeline_entry` for each commit that `matching_delta` finds the
/// file in, the walk stopping once it is full) holds exactly the entries of
/// the first 50 commits of the walk that changed the file, in walk order.
pub proof fn law_timeline_is_the_first_commits_changing_the_file(walk: Seq<WalkedCommit>, file_path: Seq<char>)
    ensures
        capped_walk(timeline_offers(walk, file_path), 50) == first_n(somes(timeline_offers(walk, file_path)), 50),
        capped_walk(timeline_offers(walk, file_path), 50).len() <= 50,
{
    law_capped_walk_keeps_the_first(timeline_offers(walk, file_path), 50);
}

} // verus!
