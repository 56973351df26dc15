//! Line-by-line blame of a file at HEAD: which commit last touched each
//! line, by whom and when.

use vstd::prelude::*;
use crate::history::{commit_time, commit_time_text};
use crate::text::{chars_of, lines_of, split_lines, strict_text, strict_text_of, string_of};

verus! {

/// The signature of the commit a blame hunk comes from: the author's name
/// as git2 gives it and the Unix time.
pub struct BlameSignature {
    pub name: Option<String>,
    pub seconds: i64,
}

/// A blame hunk as git2 reports it: the commit, its signature where there
/// is one, the first line (counted from 1) and the number of lines.
pub struct BlameHunk {
    pub commit_hash: String,
    pub signature: Option<BlameSignature>,
    pub start_line: usize,
    pub lines: usize,
}

/// One line of the blame view.
pub struct BlameLine {
    pub line_number: usize,
    pub commit_hash: String,
    pub author: String,
    pub time: String,
    pub content: String,
}

pub open spec fn blame_view(l: BlameLine) -> (int, Seq<char>, Seq<char>, Seq<char>, Seq<char>) {
    (l.line_number as int, l.commit_hash@, l.author@, l.time@, l.content@)
}

/// The author shown for a hunk: the signature's name, or `未知` when there
/// is no signature or no name.
pub open spec fn hunk_author(h: BlameHunk) -> Seq<char> {
    match h.signature {
        Some(s) => match s.name {
            Some(n) => n@,
            None => "未知"@,
        },
        None => "未知"@,
    }
}

/// The time shown for a hunk: the signature's time, or `未知时间` when there
/// is no signature.
pub open spec fn hunk_time(h: BlameHunk) -> Seq<char> {
    match h.signature {
        Some(s) => commit_time_text(s.seconds),
        None => "未知时间"@,
    }
}

/// The text of line `k` (counted from 1; line 0 reads as line 1) of
/// `file_lines`, or the empty text past the end.
pub open spec fn line_text(file_lines: Seq<Seq<char>>, k: int) -> Seq<char> {
    let idx = if k == 0 {
        0
    } else {
        k - 1
    };
    if idx < file_lines.len() {
        file_lines[idx]
    } else {
        Seq::empty()
    }
}

/// The blame lines of one hunk.
pub open spec fn hunk_rows(h: BlameHunk, file_lines: Seq<Seq<char>>) -> Seq<(int, Seq<char>, Seq<char>, Seq<char>, Seq<char>)> {
    Seq::new(
        h.lines as nat,
        |i: int|
            (
                h.start_line + i,
                h.commit_hash@,
                hunk_author(h),
                hunk_time(h),
                line_text(file_lines, h.start_line + i),
            ),
    )
}

/// The blame lines of all hunks, one hunk after another.
pub open spec fn blame_rows(hunks: Seq<BlameHunk>, file_lines: Seq<Seq<char>>) -> Seq<(int, Seq<char>, Seq<char>, Seq<char>, Seq<char>)>
    decreases hunks.len(),
{
    if hunks.len() == 0 {
        seq![]
    } else {
        blame_rows(hunks.drop_last(), file_lines) + hunk_rows(hunks.last(), file_lines)
    }
}

/// Whether every line number of the hunk fits in a `usize`.
pub open spec fn hunk_fits(h: BlameHunk) -> bool {
    h.lines == 0 || h.start_line + h.lines - 1 <= usize::MAX
}

/// The blame view of a file: for each hunk, one line per line it covers,
/// with the hunk's commit, author and time and the file's text of that
/// line (the file read as UTF-8; an invalid file reads as empty).
pub fn blame_lines(content: &Vec<u8>, hunks: &Vec<BlameHunk>) -> (r: Vec<BlameLine>)
    requires
        forall|k: int| 0 <= k < hunks@.len() ==> hunk_fits(#[trigger] hunks@[k]),
    ensures
        r@.map_values(|l: BlameLine| blame_view(l)) == blame_rows(
            hunks@,
            lines_of(strict_text_of(content@)),
        ),
{
    let text = strict_text(content);
    let file_lines = split_lines(&chars_of(text.as_str()));
    let ghost fl = lines_of(strict_text_of(content@));
    let mut out: Vec<BlameLine> = Vec::new();
    let mut k: usize = 0;
    assert(hunks@.take(0) =~= Seq::<BlameHunk>::empty());
    assert(out@.map_values(|l: BlameLine| blame_view(l)) =~= Seq::<
        (int, Seq<char>, Seq<char>, Seq<char>, Seq<char>),
    >::empty());
    while k < hunks.len()
        invariant
            k <= hunks@.len(),
            forall|j: int| 0 <= j < hunks@.len() ==> hunk_fits(#[trigger] hunks@[j]),
            file_lines.deep_view() == fl,
            out@.map_values(|l: BlameLine| blame_view(l)) == blame_rows(hunks@.take(k as int), fl),
        decreases hunks@.len() - k,
    {
        let h = &hunks[k];
        assert(hunk_fits(hunks@[k as int]));
        assert(hunks@.take(k + 1).drop_last() =~= hunks@.take(k as int));
        assert(hunks@.take(k + 1).last() == *h);
        let author: String = match &h.signature {
            Some(s) => match &s.name {
                Some(n) => n.clone(),
                None => string_of(&chars_of("未知")),
            },
            None => string_of(&chars_of("未知")),
        };
        let time: String = match &h.signature {
            Some(s) => commit_time(s.seconds),
            None => string_of(&chars_of("未知时间")),
        };
        let ghost base = out@.map_values(|l: BlameLine| blame_view(l));
        let ghost rows = hunk_rows(*h, fl);
        let mut i: usize = 0;
        while i < h.lines
            invariant
                i <= h.lines,
                hunk_fits(*h),
                file_lines.deep_view() == fl,
                author@ == hunk_author(*h),
                time@ == hunk_time(*h),
                rows == hunk_rows(*h, fl),
                out@.map_values(|l: BlameLine| blame_view(l)) == base + rows.take(i as int),
            decreases h.lines - i,
        {
            let n = h.start_line + i;
            let idx = if n == 0 {
                0
            } else {
                n - 1
            };
            let line = if idx < file_lines.len() {
                assert(file_lines[idx as int].deep_view() =~= file_lines[idx as int]@);
                string_of(&file_lines[idx])
            } else {
                String::new()
            };
            let ghost prev = out@.map_values(|l: BlameLine| blame_view(l));
            out.push(
                BlameLine {
                    line_number: n,
                    commit_hash: h.commit_hash.clone(),
                    author: author.clone(),
                    time: time.clone(),
                    content: line,
                },
            );
            assert(out@.map_values(|l: BlameLine| blame_view(l)) =~= prev.push(rows[i as int]));
            assert(rows.take(i + 1) =~= rows.take(i as int).push(rows[i as int]));
            i = i + 1;
        }
        assert(rows.take(h.lines as int) =~= rows);
        k = k + 1;
    }
    assert(hunks@.take(hunks@.len() as int) =~= hunks@);
    out
}

/// The number of lines the hunks cover, one hunk after another.
pub open spec fn covered_lines(hunks: Seq<BlameHunk>) -> int
    decreases hunks.len(),
{
    if hunks.len() == 0 {
        0
    } else {
        covered_lines(hunks.drop_last()) + hunks.last().lines
    }
}

/// The blame view has one line for each line a hunk covers, and within a
/// hunk the line numbers count up from its first line.
pub proof fn law_blame_one_line_per_covered_line(hunks: Seq<BlameHunk>, file_lines: Seq<Seq<char>>)
    ensures
        blame_rows(hunks, file_lines).len() == covered_lines(hunks),
        forall|k: int, i: int|
            0 <= k < hunks.len() && 0 <= i < hunks[k].lines ==> (#[trigger] hunk_rows(hunks[k], file_lines)[i]).0
                == hunks[k].start_line + i,
    decreases hunks.len(),
{
    if hunks.len() > 0 {
        law_blame_one_line_per_covered_line(hunks.drop_last(), file_lines);
    }
}

} // verus!
