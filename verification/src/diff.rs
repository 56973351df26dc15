//! Commit diffs as the front end shows them: hunk headers, per-line origin
//! marks, added and removed line counts, and word-level changes inside a
//! changed line.

use vstd::prelude::*;
use crate::history::{commit_record, make_commit, Commit};
use crate::numbers::{abs, parse_isize_magnitude, parse_isize_spec, parse_usize, parse_usize_spec};
use crate::text::{append_chars, chars_of, concat_all, is_ws, split_on, split_on_exec, string_of};
use vstd::utf8::{decode_utf8, encode_utf8, valid_utf8};

verus! {

/// Reading `s` from the left: the whitespace-separated words finished so
/// far and the word still open.
pub open spec fn word_scan(s: Seq<char>) -> (Seq<Seq<char>>, Seq<char>)
    decreases s.len(),
{
    if s.len() == 0 {
        (seq![], seq![])
    } else {
        let (done, open) = word_scan(s.drop_last());
        if is_ws(s.last()) {
            if open.len() > 0 {
                (done.push(open), seq![])
            } else {
                (done, seq![])
            }
        } else {
            (done, open.push(s.last()))
        }
    }
}

/// The words of `s` (`str::split_whitespace`): maximal runs of characters
/// that are not Unicode whitespace.
pub open spec fn words_of(s: Seq<char>) -> Seq<Seq<char>> {
    let (done, open) = word_scan(s);
    if open.len() > 0 {
        done.push(open)
    } else {
        done
    }
}

/// `s` without its leading repetitions of `@@` (`trim_start_matches("@@")`).
pub open spec fn strip_at_pairs(s: Seq<char>) -> Seq<char>
    decreases s.len(),
{
    if s.len() >= 2 && s[0] == '@' && s[1] == '@' {
        strip_at_pairs(s.skip(2))
    } else {
        s
    }
}

pub open spec fn trim_start_ws(s: Seq<char>) -> Seq<char>
    decreases s.len(),
{
    if s.len() > 0 && is_ws(s[0]) {
        trim_start_ws(s.skip(1))
    } else {
        s
    }
}

pub open spec fn trim_end_ws(s: Seq<char>) -> Seq<char>
    decreases s.len(),
{
    if s.len() > 0 && is_ws(s.last()) {
        trim_end_ws(s.drop_last())
    } else {
        s
    }
}

/// `s` without leading and trailing whitespace (`str::trim`).
pub open spec fn trim_ws(s: Seq<char>) -> Seq<char> {
    trim_end_ws(trim_start_ws(s))
}

/// The magnitude of a parsed start line, 0 when it does not parse.
pub open spec fn start_of(piece: Seq<char>) -> int {
    match parse_isize_spec(piece) {
        Some(v) => abs(v),
        None => 0,
    }
}

/// The line count after the comma: 1 when there is no comma, 0 when it
/// does not parse.
pub open spec fn count_of(pieces: Seq<Seq<char>>) -> int {
    if pieces.len() > 1 {
        match parse_usize_spec(pieces[1]) {
            Some(v) => v,
            None => 0,
        }
    } else {
        1
    }
}

/// The four numbers that `parse_hunk_header` reads from `header`: the old
/// side is read from the first word with its leading `@@` removed, the new
/// side from the third word; a header of fewer than four words gives zeros.
pub open spec fn hunk_numbers(header: Seq<char>) -> (int, int, int, int) {
    let parts = words_of(header);
    if parts.len() < 4 {
        (0, 0, 0, 0)
    } else {
        let old = trim_ws(strip_at_pairs(parts[0]));
        let new = trim_ws(parts[2]);
        let op = split_on(old, ',');
        let np = split_on(new, ',');
        (start_of(op[0]), count_of(op), start_of(np[0]), count_of(np))
    }
}

/// The words of `s`.
pub fn words_exec(s: &Vec<char>) -> (r: Vec<Vec<char>>)
    ensures
        r.deep_view() == words_of(s@),
{
    let mut done: Vec<Vec<char>> = Vec::new();
    let mut open: Vec<char> = Vec::new();
    let mut i: usize = 0;
    while i < s.len()
        invariant
            i <= s@.len(),
            (done.deep_view(), open@) == word_scan(s@.take(i as int)),
        decreases s@.len() - i,
    {
        let c = s[i];
        assert(s@.take(i + 1).drop_last() == s@.take(i as int));
        if crate::text::char_is_whitespace(c) {
            if open.len() > 0 {
                let ghost before = done.deep_view();
                let ghost w = open@;
                assert(open.deep_view() =~= open@);
                done.push(open);
                assert(done.deep_view() =~= before.push(w));
            }
            open = Vec::new();
        } else {
            open.push(c);
        }
        i = i + 1;
    }
    assert(s@.take(s@.len() as int) == s@);
    if open.len() > 0 {
        let ghost before = done.deep_view();
        let ghost w = open@;
        assert(open.deep_view() =~= open@);
        done.push(open);
        assert(done.deep_view() =~= before.push(w));
    }
    done
}

/// Copies `s[from..to]`.
fn slice_chars(s: &Vec<char>, from: usize, to: usize) -> (r: Vec<char>)
    requires
        from <= to <= s@.len(),
    ensures
        r@ == s@.subrange(from as int, to as int),
{
    let mut r: Vec<char> = Vec::new();
    let mut i: usize = from;
    while i < to
        invariant
            from <= i <= to <= s@.len(),
            r@ == s@.subrange(from as int, i as int),
        decreases to - i,
    {
        r.push(s[i]);
        i = i + 1;
        assert(r@ =~= s@.subrange(from as int, i as int));
    }
    r
}

/// `s` without leading `@@` pairs.
fn strip_at_pairs_exec(s: &Vec<char>) -> (r: Vec<char>)
    ensures
        r@ == strip_at_pairs(s@),
{
    let mut from: usize = 0;
    assert(s@.skip(0) =~= s@);
    while from < s.len() && s.len() - from >= 2 && s[from] == '@' && s[from + 1] == '@'
        invariant
            from <= s@.len(),
            strip_at_pairs(s@) == strip_at_pairs(s@.skip(from as int)),
        decreases s@.len() - from,
    {
        assert(s@.skip(from as int).skip(2) =~= s@.skip(from + 2));
        from = from + 2;
    }
    assert(s@.skip(from as int) =~= s@.subrange(from as int, s@.len() as int));
    slice_chars(s, from, s.len())
}

/// `s` without leading and trailing whitespace.
fn trim_exec(s: &Vec<char>) -> (r: Vec<char>)
    ensures
        r@ == trim_ws(s@),
{
    let mut from: usize = 0;
    assert(s@.skip(0) =~= s@);
    while from < s.len() && crate::text::char_is_whitespace(s[from])
        invariant
            from <= s@.len(),
            trim_start_ws(s@) == trim_start_ws(s@.skip(from as int)),
        decreases s@.len() - from,
    {
        assert(s@.skip(from as int).skip(1) =~= s@.skip(from + 1));
        from = from + 1;
    }
    let ghost t = s@.skip(from as int);
    assert(trim_start_ws(t) == t);
    let mut to: usize = s.len();
    assert(t =~= s@.subrange(from as int, to as int));
    while to > from && crate::text::char_is_whitespace(s[to - 1])
        invariant
            from <= to <= s@.len(),
            trim_end_ws(t) == trim_end_ws(s@.subrange(from as int, to as int)),
            t == s@.skip(from as int),
        decreases to,
    {
        assert(s@.subrange(from as int, to as int).drop_last() =~= s@.subrange(
            from as int,
            to - 1,
        ));
        to = to - 1;
    }
    slice_chars(s, from, to)
}

/// The start line read from the first piece.
fn start_exec(pieces: &Vec<Vec<char>>) -> (r: usize)
    requires
        pieces@.len() >= 1,
    ensures
        r as int == start_of(pieces.deep_view()[0]),
{
    assert(pieces[0].deep_view() =~= pieces[0]@);
    match parse_isize_magnitude(&pieces[0]) {
        Some(m) => m,
        None => 0,
    }
}

/// The line count read from the second piece.
fn count_exec(pieces: &Vec<Vec<char>>) -> (r: usize)
    ensures
        r as int == count_of(pieces.deep_view()),
{
    if pieces.len() > 1 {
        assert(pieces[1].deep_view() =~= pieces[1]@);
        match parse_usize(&pieces[1]) {
            Some(v) => v,
            None => 0,
        }
    } else {
        1
    }
}

/// The four numbers of a hunk header `@@ -a,b +c,d @@`: old start, old line
/// count, new start, new line count, read as described by `hunk_numbers`.
pub fn parse_hunk_header(header: &str) -> (r: (usize, usize, usize, usize))
    ensures
        (r.0 as int, r.1 as int, r.2 as int, r.3 as int) == hunk_numbers(header@),
{
    let h = chars_of(header);
    let parts = words_exec(&h);
    if parts.len() < 4 {
        return (0, 0, 0, 0);
    }
    assert(parts[0].deep_view() =~= parts[0]@);
    assert(parts[2].deep_view() =~= parts[2]@);
    assert(parts.deep_view()[0] == parts[0]@);
    assert(parts.deep_view()[2] == parts[2]@);
    let old = trim_exec(&strip_at_pairs_exec(&parts[0]));
    let new = trim_exec(&parts[2]);
    let op = split_on_exec(&old, ',');
    let np = split_on_exec(&new, ',');
    let old_start = start_exec(&op);
    let old_lines = count_exec(&op);
    let new_start = start_exec(&np);
    let new_lines = count_exec(&np);
    (old_start, old_lines, new_start, new_lines)
}

/// The byte length of the UTF-8 encoding of `s`.
pub open spec fn byte_len(s: Seq<char>) -> int {
    encode_utf8(s).len() as int
}

pub proof fn lemma_encode_utf8_concat(a: Seq<char>, b: Seq<char>)
    ensures
        encode_utf8(a + b) == encode_utf8(a) + encode_utf8(b),
    decreases a.len(),
{
    if a.len() > 0 {
        assert((a + b).drop_first() =~= a.drop_first() + b);
        lemma_encode_utf8_concat(a.drop_first(), b);
        assert((a + b)[0] == a[0]);
    } else {
        assert(a + b =~= b);
    }
}

/// The length in bytes of the UTF-8 encoding of `s`.
fn str_byte_len(s: &str) -> (n: usize)
    ensures
        n as int == byte_len(s@),
{
    let bytes = s.as_bytes();
    bytes.len()
}

/// The kind of a word-level change.
pub enum ChangeKind {
    Equal,
    Delete,
    Insert,
}

/// One word-level change: a word (or run of whitespace) kept, removed from
/// the old line, or added in the new line.
pub struct WordChange {
    pub kind: ChangeKind,
    pub text: String,
}

impl View for WordChange {
    type V = (ChangeKind, Seq<char>);

    open spec fn view(&self) -> (ChangeKind, Seq<char>) {
        (self.kind, self.text@)
    }
}

/// The changes that `similar::TextDiff::from_words(old, new)` lists through
/// `iter_all_changes`, in order.
pub uninterp spec fn word_diff(old: Seq<char>, new: Seq<char>) -> Seq<(ChangeKind, Seq<char>)>;

/// The text of one side of a change list: kept and removed words give the
/// old line, kept and added words the new line.
pub open spec fn side_text(changes: Seq<(ChangeKind, Seq<char>)>, new_side: bool) -> Seq<char>
    decreases changes.len(),
{
    if changes.len() == 0 {
        seq![]
    } else {
        let (k, t) = changes.last();
        let keep = match k {
            ChangeKind::Equal => true,
            ChangeKind::Delete => !new_side,
            ChangeKind::Insert => new_side,
        };
        side_text(changes.drop_last(), new_side) + if keep {
            t
        } else {
            seq![]
        }
    }
}

/// Calls `similar::TextDiff::from_words(old, new).iter_all_changes()` and
/// copies each change's tag and text.  The list is named by `word_diff`.
/// Besides, the diff's operations cover both token lists in order, and the
/// tokens of a string concatenate back to it, so the kept and removed texts
/// spell `old` and the kept and added texts spell `new`.  Which words end up
/// kept is left unsaid.
#[verifier::external_body]
fn word_changes(old: &str, new: &str) -> (r: Vec<WordChange>)
    ensures
        r@.map_values(|c: WordChange| c@) == word_diff(old@, new@),
        side_text(r@.map_values(|c: WordChange| c@), false) == old@,
        side_text(r@.map_values(|c: WordChange| c@), true) == new@,
{
    let diff = similar::TextDiff::from_words(old, new);
    diff.iter_all_changes().map(|c| WordChange {
        kind: match c.tag() {
            similar::ChangeTag::Equal => ChangeKind::Equal,
            similar::ChangeTag::Delete => ChangeKind::Delete,
            similar::ChangeTag::Insert => ChangeKind::Insert,
        },
        text: c.as_str().unwrap_or("").to_string(),
    }).collect()
}

/// A span of a changed line to highlight: `length` bytes at byte `offset` of
/// the new line, of kind `"delete"` or `"insert"`.
pub struct InlineChange {
    pub offset: usize,
    pub length: usize,
    pub kind: String,
}

impl View for InlineChange {
    type V = (int, int, Seq<char>);

    open spec fn view(&self) -> (int, int, Seq<char>) {
        (self.offset as int, self.length as int, self.kind@)
    }
}

/// Walking a change list: the highlights so far and the byte offset reached
/// in the new line.  Kept words advance the offset; removed words are
/// highlighted at the offset without advancing it; added words are
/// highlighted and advance it.
pub open spec fn inline_scan(changes: Seq<(ChangeKind, Seq<char>)>) -> (Seq<(int, int, Seq<char>)>, int)
    decreases changes.len(),
{
    if changes.len() == 0 {
        (seq![], 0)
    } else {
        let (r, off) = inline_scan(changes.drop_last());
        let (k, t) = changes.last();
        let n = byte_len(t);
        match k {
            ChangeKind::Equal => (r, off + n),
            ChangeKind::Delete => (r.push((off, n, "delete"@)), off),
            ChangeKind::Insert => (r.push((off, n, "insert"@)), off + n),
        }
    }
}

/// The highlights of the change list `changes`.
pub open spec fn inline_changes_from(changes: Seq<(ChangeKind, Seq<char>)>) -> Seq<(int, int, Seq<char>)> {
    inline_scan(changes).0
}

/// The offset reached is the byte length of the new side.
pub proof fn lemma_inline_offset(changes: Seq<(ChangeKind, Seq<char>)>)
    ensures
        inline_scan(changes).1 == byte_len(side_text(changes, true)),
    decreases changes.len(),
{
    if changes.len() > 0 {
        let rest = changes.drop_last();
        lemma_inline_offset(rest);
        let (k, t) = changes.last();
        match k {
            ChangeKind::Delete => {
                assert(side_text(changes, true) =~= side_text(rest, true));
            },
            _ => {
                lemma_encode_utf8_concat(side_text(rest, true), t);
            },
        }
    } else {
        assert(encode_utf8(Seq::<char>::empty()) =~= Seq::<u8>::empty());
    }
}

/// The highlights of a word change list (the part of
/// `compute_inline_changes` that follows the diff).
pub fn inline_changes_of_words(changes: &Vec<WordChange>) -> (r: Vec<InlineChange>)
    requires
        inline_scan(changes@.map_values(|c: WordChange| c@)).1 <= usize::MAX,
    ensures
        r@.map_values(|c: InlineChange| c@) == inline_changes_from(
            changes@.map_values(|c: WordChange| c@),
        ),
{
    let ghost cs = changes@.map_values(|c: WordChange| c@);
    let mut r: Vec<InlineChange> = Vec::new();
    let mut offset: usize = 0;
    let mut i: usize = 0;
    proof {
        lemma_inline_monotone(cs, 0);
    }
    while i < changes.len()
        invariant
            i <= changes@.len(),
            cs == changes@.map_values(|c: WordChange| c@),
            inline_scan(cs).1 <= usize::MAX,
            (r@.map_values(|c: InlineChange| c@), offset as int) == inline_scan(cs.take(i as int)),
        decreases changes@.len() - i,
    {
        let c = &changes[i];
        let n = str_byte_len(c.text.as_str());
        assert(cs.take(i + 1).drop_last() =~= cs.take(i as int));
        assert(cs.take(i + 1).last() == c@);
        proof {
            lemma_inline_monotone(cs, i + 1);
        }
        let ghost before = r@.map_values(|c: InlineChange| c@);
        match c.kind {
            ChangeKind::Equal => {
                offset = offset + n;
            },
            ChangeKind::Delete => {
                r.push(InlineChange { offset, length: n, kind: string_of(&chars_of("delete")) });
                assert(r@.map_values(|c: InlineChange| c@) =~= before.push(
                    (offset as int, n as int, "delete"@),
                ));
            },
            ChangeKind::Insert => {
                r.push(InlineChange { offset, length: n, kind: string_of(&chars_of("insert")) });
                assert(r@.map_values(|c: InlineChange| c@) =~= before.push(
                    (offset as int, n as int, "insert"@),
                ));
                offset = offset + n;
            },
        }
        i = i + 1;
    }
    assert(cs.take(cs.len() as int) == cs);
    r
}

/// The offset only grows along the list.
pub proof fn lemma_inline_monotone(changes: Seq<(ChangeKind, Seq<char>)>, k: int)
    requires
        0 <= k <= changes.len(),
    ensures
        0 <= inline_scan(changes.take(k)).1 <= inline_scan(changes).1,
    decreases changes.len() - k,
{
    if k < changes.len() {
        lemma_inline_monotone(changes, k + 1);
        assert(changes.take(k + 1).drop_last() =~= changes.take(k));
        lemma_inline_nonneg(changes.take(k));
        let t = changes.take(k + 1).last().1;
        assert(byte_len(t) >= 0);
    } else {
        assert(changes.take(k) =~= changes);
        lemma_inline_nonneg(changes);
    }
}

proof fn lemma_inline_nonneg(changes: Seq<(ChangeKind, Seq<char>)>)
    ensures
        inline_scan(changes).1 >= 0,
    decreases changes.len(),
{
    if changes.len() > 0 {
        lemma_inline_nonneg(changes.drop_last());
    }
}

/// Every highlight starts within the reached offset, and an added word ends
/// within it.
proof fn lemma_inline_bounds(changes: Seq<(ChangeKind, Seq<char>)>)
    ensures
        forall|i: int|
            0 <= i < inline_scan(changes).0.len() ==> {
                let e = #[trigger] inline_scan(changes).0[i];
                &&& 0 <= e.0 <= inline_scan(changes).1
                &&& e.2 == "insert"@ ==> e.0 + e.1 <= inline_scan(changes).1
            },
    decreases changes.len(),
{
    reveal_strlit("insert");
    reveal_strlit("delete");
    if changes.len() > 0 {
        let rest = changes.drop_last();
        lemma_inline_bounds(rest);
        lemma_inline_nonneg(rest);
        let (k, t) = changes.last();
        let (r, off) = inline_scan(rest);
        assert(byte_len(t) >= 0);
        assert forall|i: int| 0 <= i < inline_scan(changes).0.len() implies {
            let e = #[trigger] inline_scan(changes).0[i];
            &&& 0 <= e.0 <= inline_scan(changes).1
            &&& e.2 == "insert"@ ==> e.0 + e.1 <= inline_scan(changes).1
        } by {
            if i < r.len() {
                assert(inline_scan(changes).0[i] == r[i]);
            } else {
                assert("delete"@[0] != "insert"@[0]);
            }
        }
    }
}

/// The highlights come in the order of their offsets in the new line.
pub proof fn law_highlights_in_offset_order(changes: Seq<(ChangeKind, Seq<char>)>)
    ensures
        forall|i: int, j: int|
            0 <= i < j < inline_changes_from(changes).len() ==> (#[trigger] inline_changes_from(changes)[i]).0
                <= (#[trigger] inline_changes_from(changes)[j]).0,
    decreases changes.len(),
{
    if changes.len() > 0 {
        let rest = changes.drop_last();
        law_highlights_in_offset_order(rest);
        lemma_inline_bounds(rest);
        let (r, off) = inline_scan(rest);
        let w = inline_changes_from(changes);
        assert forall|i: int, j: int| 0 <= i < j < w.len() implies (#[trigger] w[i]).0 <= (#[trigger] w[j]).0 by {
            assert(w[i] == inline_scan(rest).0[i]);
            assert(inline_scan(rest).0[i] == inline_changes_from(rest)[i]);
            if j < r.len() {
                assert(w[j] == inline_changes_from(rest)[j]);
            } else {
                assert(w[j].0 == inline_scan(rest).1);
            }
        }
    }
}

/// The word-level highlights between an old and a new version of a line:
/// removed words at the byte offset where they would have stood in the new
/// line, added words at their byte offset in the new line.
pub fn compute_inline_changes(old_line: &str, new_line: &str) -> (r: Vec<InlineChange>)
    ensures
        r@.map_values(|c: InlineChange| c@) == inline_changes_from(word_diff(old_line@, new_line@)),
        forall|i: int|
            0 <= i < r@.len() ==> (#[trigger] r@[i]).offset <= byte_len(new_line@) && (r@[i].kind@
                == "insert"@ ==> r@[i].offset + r@[i].length <= byte_len(new_line@)),
{
    let changes = word_changes(old_line, new_line);
    let new_total = str_byte_len(new_line);
    let ghost cs = changes@.map_values(|c: WordChange| c@);
    proof {
        lemma_inline_offset(cs);
    }
    let r = inline_changes_of_words(&changes);
    proof {
        lemma_inline_bounds(cs);
        assert forall|i: int| 0 <= i < r@.len() implies (#[trigger] r@[i]).offset <= byte_len(
            new_line@,
        ) && (r@[i].kind@ == "insert"@ ==> r@[i].offset + r@[i].length <= byte_len(new_line@)) by {
            assert(r@.map_values(|c: InlineChange| c@)[i] == r@[i]@);
        }
    }
    r
}

/// One line that `git2::Patch::print` reports: the header of the hunk it
/// belongs to (git2 passes one with the hunk-header line and with every
/// line inside a hunk), its origin mark (`F` for the file header, `H` for a
/// hunk header, `+`, `-` or a space for a content line, and a few others)
/// and its text.
pub struct PatchEvent {
    pub hunk_header: Option<String>,
    pub origin: char,
    pub content: String,
}

/// One line of a hunk as the diff view shows it.
pub struct DiffLine {
    pub origin: String,
    pub content: String,
    pub inline_changes: Vec<InlineChange>,
}

/// A hunk of the diff view.  The line counts are always 0.
pub struct DiffHunk {
    pub old_start: usize,
    pub old_lines: usize,
    pub new_start: usize,
    pub new_lines: usize,
    pub lines: Vec<DiffLine>,
}

pub open spec fn line_view(l: DiffLine) -> (Seq<char>, Seq<char>, Seq<(int, int, Seq<char>)>) {
    (l.origin@, l.content@, l.inline_changes@.map_values(|c: InlineChange| c@))
}

pub open spec fn hunk_view(h: DiffHunk) -> (int, int, int, int, Seq<(Seq<char>, Seq<char>, Seq<(int, int, Seq<char>)>)>) {
    (h.old_start as int, h.old_lines as int, h.new_start as int, h.new_lines as int, h.lines@.map_values(|l: DiffLine| line_view(l)))
}

/// The origin mark shown for a line: `+`, `-` or a space as git2 gives it,
/// `?` for anything else.
pub open spec fn origin_text(c: char) -> Seq<char> {
    if c == '+' {
        seq!['+']
    } else if c == '-' {
        seq!['-']
    } else if c == ' ' {
        seq![' ']
    } else {
        seq!['?']
    }
}

/// The highlights of a line: an added line is compared with an empty old
/// line, a removed line with an empty new line, other lines get none.
pub open spec fn line_highlights(c: char, content: Seq<char>) -> Seq<(int, int, Seq<char>)> {
    if c == '+' {
        inline_changes_from(word_diff(""@, content))
    } else if c == '-' {
        inline_changes_from(word_diff(content, ""@))
    } else {
        seq![]
    }
}

/// The start lines of a hunk-header line: read from its header by
/// `hunk_numbers`, zeros when git2 passes none.
pub open spec fn header_starts(header: Option<Seq<char>>) -> (int, int) {
    match header {
        Some(h) => (hunk_numbers(h).0, hunk_numbers(h).2),
        None => (0, 0),
    }
}

/// The grouping state: the hunks closed so far, the start lines read from
/// the last hunk header, and the lines gathered since.
pub struct HunkScan {
    pub hunks: Seq<(int, int, int, int, Seq<(Seq<char>, Seq<char>, Seq<(int, int, Seq<char>)>)>)>,
    pub old_start: int,
    pub new_start: int,
    pub lines: Seq<(Seq<char>, Seq<char>, Seq<(int, int, Seq<char>)>)>,
}

/// A hunk-header line (origin `H`) closes the lines gathered so far (when
/// there are any) into a hunk and takes the start lines from its header;
/// any other line is gathered: a content line with its own mark, the file
/// header and the end-of-file markers with `?`.
pub open spec fn hunk_step(st: HunkScan, header: Option<Seq<char>>, origin: char, content: Seq<char>) -> HunkScan {
    if origin == 'H' {
        let hs = if st.lines.len() > 0 {
            st.hunks.push((st.old_start, 0, st.new_start, 0, st.lines))
        } else {
            st.hunks
        };
        HunkScan { hunks: hs, old_start: header_starts(header).0, new_start: header_starts(header).1, lines: seq![] }
    } else {
        HunkScan {
            lines: st.lines.push(shown_line(origin, content)),
            ..st
        }
    }
}

/// How a reported line that is not a hunk header is shown.
pub open spec fn shown_line(origin: char, content: Seq<char>) -> (Seq<char>, Seq<char>, Seq<(int, int, Seq<char>)>) {
    (origin_text(origin), content, line_highlights(origin, content))
}

pub open spec fn event_view(e: PatchEvent) -> (Option<Seq<char>>, char, Seq<char>) {
    (match e.hunk_header {
        Some(h) => Some(h@),
        None => None,
    }, e.origin, e.content@)
}

pub open spec fn hunk_scan(events: Seq<(Option<Seq<char>>, char, Seq<char>)>) -> HunkScan
    decreases events.len(),
{
    if events.len() == 0 {
        HunkScan { hunks: seq![], old_start: 0, new_start: 0, lines: seq![] }
    } else {
        let (h, o, c) = events.last();
        hunk_step(hunk_scan(events.drop_last()), h, o, c)
    }
}

/// The hunks of a patch: the closed hunks, then the last one when it has
/// lines.
pub open spec fn hunks_of(events: Seq<(Option<Seq<char>>, char, Seq<char>)>) -> Seq<(int, int, int, int, Seq<(Seq<char>, Seq<char>, Seq<(int, int, Seq<char>)>)>)> {
    let st = hunk_scan(events);
    if st.lines.len() > 0 {
        st.hunks.push((st.old_start, 0, st.new_start, 0, st.lines))
    } else {
        st.hunks
    }
}

fn origin_string(c: char) -> (r: String)
    ensures
        r@ == origin_text(c),
{
    let v = if c == '+' {
        vec!['+']
    } else if c == '-' {
        vec!['-']
    } else if c == ' ' {
        vec![' ']
    } else {
        vec!['?']
    };
    assert(v@ == origin_text(c));
    string_of(&v)
}

/// Groups the lines that `Patch::print` reports into the hunks of the diff
/// view (see `hunks_of`).
pub fn group_diff_lines(events: &Vec<PatchEvent>) -> (r: Vec<DiffHunk>)
    ensures
        r@.map_values(|h: DiffHunk| hunk_view(h)) == hunks_of(events@.map_values(|e: PatchEvent| event_view(e))),
{
    let ghost evs = events@.map_values(|e: PatchEvent| event_view(e));
    let mut hunks: Vec<DiffHunk> = Vec::new();
    let mut old_start: usize = 0;
    let mut new_start: usize = 0;
    let mut lines: Vec<DiffLine> = Vec::new();
    let mut i: usize = 0;
    assert(evs.take(0) =~= Seq::<(Option<Seq<char>>, char, Seq<char>)>::empty());
    assert(hunks@.map_values(|h: DiffHunk| hunk_view(h)) =~= Seq::<(int, int, int, int, Seq<(Seq<char>, Seq<char>, Seq<(int, int, Seq<char>)>)>)>::empty());
    assert(lines@.map_values(|l: DiffLine| line_view(l)) =~= Seq::<(Seq<char>, Seq<char>, Seq<(int, int, Seq<char>)>)>::empty());
    while i < events.len()
        invariant
            i <= events@.len(),
            evs == events@.map_values(|e: PatchEvent| event_view(e)),
            hunk_scan(evs.take(i as int)) == (HunkScan {
                hunks: hunks@.map_values(|h: DiffHunk| hunk_view(h)),
                old_start: old_start as int,
                new_start: new_start as int,
                lines: lines@.map_values(|l: DiffLine| line_view(l)),
            }),
        decreases events@.len() - i,
    {
        let e = &events[i];
        assert(evs.take(i + 1).drop_last() =~= evs.take(i as int));
        assert(evs.take(i + 1).last() == event_view(*e));
        let ghost hv = hunks@.map_values(|h: DiffHunk| hunk_view(h));
        let ghost lv = lines@.map_values(|l: DiffLine| line_view(l));
        if e.origin == 'H' {
            if lines.len() > 0 {
                let closed = DiffHunk { old_start, old_lines: 0, new_start, new_lines: 0, lines };
                assert(hunk_view(closed) == (old_start as int, 0int, new_start as int, 0int, lv));
                hunks.push(closed);
                assert(hunks@.map_values(|h: DiffHunk| hunk_view(h)) =~= hv.push((old_start as int, 0int, new_start as int, 0int, lv)));
                lines = Vec::new();
            }
            match &e.hunk_header {
                Some(h) => {
                    let (os, _ol, ns, _nl) = parse_hunk_header(h.as_str());
                    old_start = os;
                    new_start = ns;
                },
                None => {
                    old_start = 0;
                    new_start = 0;
                },
            }
            assert(lines@.map_values(|l: DiffLine| line_view(l)) =~= Seq::<(Seq<char>, Seq<char>, Seq<(int, int, Seq<char>)>)>::empty());
        } else {
            let origin = origin_string(e.origin);
            let content = e.content.clone();
            let inline_changes = if e.origin == '+' {
                compute_inline_changes("", e.content.as_str())
            } else if e.origin == '-' {
                compute_inline_changes(e.content.as_str(), "")
            } else {
                Vec::new()
            };
            assert(inline_changes@.map_values(|c: InlineChange| c@) =~= line_highlights(e.origin, e.content@));
            let line = DiffLine { origin, content, inline_changes };
            lines.push(line);
            assert(lines@.map_values(|l: DiffLine| line_view(l)) =~= lv.push((origin_text(e.origin), e.content@, line_highlights(e.origin, e.content@))));
        }
        i = i + 1;
    }
    assert(evs.take(evs.len() as int) == evs);
    if lines.len() > 0 {
        let ghost hv = hunks@.map_values(|h: DiffHunk| hunk_view(h));
        let ghost lv = lines@.map_values(|l: DiffLine| line_view(l));
        let closed = DiffHunk { old_start, old_lines: 0, new_start, new_lines: 0, lines };
        hunks.push(closed);
        assert(hunks@.map_values(|h: DiffHunk| hunk_view(h)) =~= hv.push((old_start as int, 0int, new_start as int, 0int, lv)));
    }
    hunks
}

/// The shown lines of the reported lines other than the hunk headers, in
/// order.
pub open spec fn shown_lines(events: Seq<(Option<Seq<char>>, char, Seq<char>)>) -> Seq<(Seq<char>, Seq<char>, Seq<(int, int, Seq<char>)>)>
    decreases events.len(),
{
    if events.len() == 0 {
        seq![]
    } else {
        let (h, o, c) = events.last();
        if o == 'H' {
            shown_lines(events.drop_last())
        } else {
            shown_lines(events.drop_last()).push(shown_line(o, c))
        }
    }
}

/// The lines of `hunks`, one hunk after another.
pub open spec fn hunk_lines(hunks: Seq<(int, int, int, int, Seq<(Seq<char>, Seq<char>, Seq<(int, int, Seq<char>)>)>)>) -> Seq<(Seq<char>, Seq<char>, Seq<(int, int, Seq<char>)>)>
    decreases hunks.len(),
{
    if hunks.len() == 0 {
        seq![]
    } else {
        hunk_lines(hunks.drop_last()) + hunks.last().4
    }
}

proof fn lemma_hunk_scan_lines(events: Seq<(Option<Seq<char>>, char, Seq<char>)>)
    ensures
        hunk_lines(hunk_scan(events).hunks) + hunk_scan(events).lines == shown_lines(events),
        forall|i: int| 0 <= i < hunk_scan(events).hunks.len() ==> (#[trigger] hunk_scan(events).hunks[i]).4.len() > 0,
    decreases events.len(),
{
    if events.len() == 0 {
        assert(hunk_lines(Seq::<(int, int, int, int, Seq<(Seq<char>, Seq<char>, Seq<(int, int, Seq<char>)>)>)>::empty())
            + Seq::<(Seq<char>, Seq<char>, Seq<(int, int, Seq<char>)>)>::empty() =~= Seq::<
            (Seq<char>, Seq<char>, Seq<(int, int, Seq<char>)>),
        >::empty());
    } else {
        let d = events.drop_last();
        lemma_hunk_scan_lines(d);
        let st = hunk_scan(d);
        let (h, o, c) = events.last();
        if o == 'H' {
            if st.lines.len() > 0 {
                let hs = st.hunks.push((st.old_start, 0, st.new_start, 0, st.lines));
                assert(hs.drop_last() =~= st.hunks);
                assert(hunk_lines(hs) + Seq::<(Seq<char>, Seq<char>, Seq<(int, int, Seq<char>)>)>::empty()
                    =~= hunk_lines(st.hunks) + st.lines);
            } else {
                assert(hunk_lines(st.hunks) + Seq::<(Seq<char>, Seq<char>, Seq<(int, int, Seq<char>)>)>::empty()
                    =~= hunk_lines(st.hunks) + st.lines);
            }
        } else {
            let x = shown_line(o, c);
            assert(hunk_lines(st.hunks) + st.lines.push(x) =~= (hunk_lines(st.hunks) + st.lines).push(x));
        }
    }
}

/// Every reported line other than a hunk header lands in exactly one hunk,
/// in the order reported, and no hunk is empty.
pub proof fn law_hunks_keep_every_line(events: Seq<(Option<Seq<char>>, char, Seq<char>)>)
    ensures
        hunk_lines(hunks_of(events)) == shown_lines(events),
        forall|i: int| 0 <= i < hunks_of(events).len() ==> (#[trigger] hunks_of(events)[i]).4.len() > 0,
{
    lemma_hunk_scan_lines(events);
    let st = hunk_scan(events);
    if st.lines.len() > 0 {
        let hs = st.hunks.push((st.old_start, 0, st.new_start, 0, st.lines));
        assert(hs.drop_last() =~= st.hunks);
    } else {
        assert(hunk_lines(st.hunks) + st.lines =~= hunk_lines(st.hunks));
    }
}

/// Whether no reported line in `events` is a hunk header.
pub open spec fn no_header(events: Seq<(Option<Seq<char>>, char, Seq<char>)>) -> bool {
    forall|j: int| 0 <= j < events.len() ==> (#[trigger] events[j]).1 != 'H'
}

proof fn lemma_scan_body(pre: Seq<(Option<Seq<char>>, char, Seq<char>)>, body: Seq<(Option<Seq<char>>, char, Seq<char>)>)
    requires
        no_header(body),
    ensures
        hunk_scan(pre + body) == (HunkScan { lines: hunk_scan(pre).lines + shown_lines(body), ..hunk_scan(pre) }),
    decreases body.len(),
{
    if body.len() == 0 {
        assert(pre + body =~= pre);
        assert(hunk_scan(pre).lines + shown_lines(body) =~= hunk_scan(pre).lines);
    } else {
        let b = body.drop_last();
        assert(no_header(b)) by {
            assert forall|j: int| 0 <= j < b.len() implies (#[trigger] b[j]).1 != 'H' by {
                assert(b[j] == body[j]);
            }
        }
        lemma_scan_body(pre, b);
        assert((pre + body).drop_last() =~= pre + b);
        assert((pre + body).last() == body.last());
        assert(body.last() == body[body.len() - 1]);
        let (h, o, c) = body.last();
        assert(hunk_scan(pre).lines + shown_lines(b).push(shown_line(o, c)) =~= (hunk_scan(pre).lines + shown_lines(b)).push(
            shown_line(o, c),
        ));
    }
}

/// Lines before the first hunk header form one hunk (start lines 0) when
/// there are any: a patch without a hunk header gives exactly that hunk.
pub proof fn law_lines_without_header_form_one_hunk(events: Seq<(Option<Seq<char>>, char, Seq<char>)>)
    requires
        no_header(events),
    ensures
        hunks_of(events) == if shown_lines(events).len() > 0 {
            seq![(0int, 0int, 0int, 0int, shown_lines(events))]
        } else {
            Seq::empty()
        },
{
    let e: Seq<(Option<Seq<char>>, char, Seq<char>)> = seq![];
    lemma_scan_body(e, events);
    assert(e + events =~= events);
    assert(Seq::<(Seq<char>, Seq<char>, Seq<(int, int, Seq<char>)>)>::empty() + shown_lines(events) =~= shown_lines(events));
}

/// Each hunk holds exactly the lines after its header: when the last hunk
/// header stands at `k`, the hunks are those of the lines before it, then,
/// when any lines follow the header, one hunk with the header's start lines
/// holding exactly those lines.
pub proof fn law_hunk_holds_the_lines_after_its_header(events: Seq<(Option<Seq<char>>, char, Seq<char>)>, k: int)
    requires
        0 <= k < events.len(),
        events[k].1 == 'H',
        no_header(events.skip(k + 1)),
    ensures
        hunks_of(events) == hunks_of(events.take(k)) + if shown_lines(events.skip(k + 1)).len() > 0 {
            seq![(header_starts(events[k].0).0, 0int, header_starts(events[k].0).1, 0int, shown_lines(events.skip(k + 1)))]
        } else {
            Seq::empty()
        },
{
    let pre = events.take(k + 1);
    let body = events.skip(k + 1);
    assert(pre.drop_last() =~= events.take(k));
    assert(pre.last() == events[k]);
    lemma_scan_body(pre, body);
    assert(pre + body =~= events);
    let st = hunk_scan(pre);
    assert(st.lines =~= Seq::<(Seq<char>, Seq<char>, Seq<(int, int, Seq<char>)>)>::empty());
    assert(st.lines + shown_lines(body) =~= shown_lines(body));
    assert(st.hunks == hunks_of(events.take(k)));
    if shown_lines(body).len() == 0 {
        assert(hunks_of(events.take(k)) + Seq::<(int, int, int, int, Seq<(Seq<char>, Seq<char>, Seq<(int, int, Seq<char>)>)>)>::empty()
            =~= hunks_of(events.take(k)));
    } else {
        assert(st.hunks.push((st.old_start, 0, st.new_start, 0, shown_lines(body))) =~= hunks_of(events.take(k)) + seq![
            (header_starts(events[k].0).0, 0int, header_starts(events[k].0).1, 0int, shown_lines(body)),
        ]);
    }
}

/// How a file changed in a commit.
pub enum DeltaKind {
    Added,
    Deleted,
    Modified,
    Renamed,
    Other,
}

/// The one-letter status shown for a change.
pub open spec fn status_letter(k: DeltaKind) -> Seq<char> {
    match k {
        DeltaKind::Added => seq!['A'],
        DeltaKind::Deleted => seq!['D'],
        DeltaKind::Modified => seq!['M'],
        DeltaKind::Renamed => seq!['R'],
        DeltaKind::Other => seq!['?'],
    }
}

/// The one-letter status of a change: `A`, `D`, `M`, `R`, or `?`.
pub fn delta_status(k: &DeltaKind) -> (r: String)
    ensures
        r@ == status_letter(*k),
{
    let v = match k {
        DeltaKind::Added => vec!['A'],
        DeltaKind::Deleted => vec!['D'],
        DeltaKind::Modified => vec!['M'],
        DeltaKind::Renamed => vec!['R'],
        DeltaKind::Other => vec!['?'],
    };
    assert(v@ == status_letter(*k));
    string_of(&v)
}

/// One line printed by `git2::Patch::print`: its origin mark and raw bytes.
pub struct PrintedLine {
    pub origin: char,
    pub content: Vec<u8>,
}

pub open spec fn printed_view(l: PrintedLine) -> (char, Seq<u8>) {
    (l.origin, l.content@)
}

/// How many of the printed lines have origin `c`.
pub open spec fn count_origin(lines: Seq<(char, Seq<u8>)>, c: char) -> int
    decreases lines.len(),
{
    if lines.len() == 0 {
        0
    } else {
        count_origin(lines.drop_last(), c) + if lines.last().0 == c {
            1int
        } else {
            0int
        }
    }
}

proof fn lemma_count_origin_bound(lines: Seq<(char, Seq<u8>)>, c: char)
    ensures
        0 <= count_origin(lines, c) <= lines.len(),
    decreases lines.len(),
{
    if lines.len() > 0 {
        lemma_count_origin_bound(lines.drop_last(), c);
    }
}

/// The added (`+`) and removed (`-`) lines of a printed patch.
pub fn count_changed_lines(lines: &Vec<PrintedLine>) -> (r: (usize, usize))
    ensures
        r.0 as int == count_origin(lines@.map_values(|l: PrintedLine| printed_view(l)), '+'),
        r.1 as int == count_origin(lines@.map_values(|l: PrintedLine| printed_view(l)), '-'),
{
    let ghost pv = lines@.map_values(|l: PrintedLine| printed_view(l));
    let mut add: usize = 0;
    let mut del: usize = 0;
    let mut i: usize = 0;
    while i < lines.len()
        invariant
            i <= lines@.len(),
            pv == lines@.map_values(|l: PrintedLine| printed_view(l)),
            add as int == count_origin(pv.take(i as int), '+'),
            del as int == count_origin(pv.take(i as int), '-'),
        decreases lines@.len() - i,
    {
        assert(pv.take(i + 1).drop_last() =~= pv.take(i as int));
        assert(pv.take(i + 1).last() == printed_view(lines@[i as int]));
        proof {
            lemma_count_origin_bound(pv.take(i as int), '+');
            lemma_count_origin_bound(pv.take(i as int), '-');
        }
        if lines[i].origin == '+' {
            add = add + 1;
        } else if lines[i].origin == '-' {
            del = del + 1;
        }
        i = i + 1;
    }
    assert(pv.take(pv.len() as int) == pv);
    (add, del)
}

/// The bytes of a printed patch: each line's origin mark (as a byte, the
/// way `origin as u8` truncates it) followed by the line's bytes.
pub open spec fn patch_bytes(lines: Seq<(char, Seq<u8>)>) -> Seq<u8>
    decreases lines.len(),
{
    if lines.len() == 0 {
        seq![]
    } else {
        patch_bytes(lines.drop_last()) + seq![lines.last().0 as u8] + lines.last().1
    }
}

/// The bytes of a printed patch (see `patch_bytes`).
pub fn patch_text_bytes(lines: &Vec<PrintedLine>) -> (r: Vec<u8>)
    ensures
        r@ == patch_bytes(lines@.map_values(|l: PrintedLine| printed_view(l))),
{
    let ghost pv = lines@.map_values(|l: PrintedLine| printed_view(l));
    let mut out: Vec<u8> = Vec::new();
    let mut i: usize = 0;
    while i < lines.len()
        invariant
            i <= lines@.len(),
            pv == lines@.map_values(|l: PrintedLine| printed_view(l)),
            out@ == patch_bytes(pv.take(i as int)),
        decreases lines@.len() - i,
    {
        assert(pv.take(i + 1).drop_last() =~= pv.take(i as int));
        assert(pv.take(i + 1).last() == printed_view(lines@[i as int]));
        out.push(lines[i].origin as u8);
        let content = &lines[i].content;
        let ghost start = out@;
        let mut k: usize = 0;
        while k < content.len()
            invariant
                k <= content@.len(),
                out@ == start + content@.take(k as int),
            decreases content@.len() - k,
        {
            out.push(content[k]);
            k = k + 1;
            assert(content@.take(k as int) =~= content@.take(k - 1).push(content@[k - 1]));
        }
        assert(content@.take(content@.len() as int) == content@);
        i = i + 1;
    }
    assert(pv.take(pv.len() as int) == pv);
    out
}

/// What `String::from_utf8_lossy` makes of `bytes`.
pub uninterp spec fn utf8_lossy(bytes: Seq<u8>) -> Seq<char>;

/// Calls `String::from_utf8_lossy`.  The result is named by `utf8_lossy`;
/// for valid UTF-8 it is the decoded text.  How invalid sequences are
/// replaced is left unsaid.
#[verifier::external_body]
pub(crate) fn decode_lossy(bytes: &Vec<u8>) -> (s: String)
    ensures
        s@ == utf8_lossy(bytes@),
        valid_utf8(bytes@) ==> s@ == decode_utf8(bytes@),
{
    String::from_utf8_lossy(bytes).to_string()
}

/// One changed file of a commit as the commit detail shows it.
pub struct FileChange {
    pub path: String,
    pub status: String,
    pub additions: usize,
    pub deletions: usize,
    pub diff: String,
}

/// Whether `r` is the commit-detail entry of a changed file with git2's
/// `path`, change `kind` and printed `patch`: its path (`未知文件` when
/// git2 gives none), its status letter and, when a patch could be made, the
/// counts of added and removed lines and the printed patch text; without a
/// patch the counts are 0 and the text is empty.
pub open spec fn change_entry(path: Option<String>, kind: DeltaKind, patch: Option<Vec<PrintedLine>>, r: FileChange) -> bool {
    &&& r.path@ == match path {
        Some(p) => p@,
        None => "未知文件"@,
    }
    &&& r.status@ == status_letter(kind)
    &&& match patch {
        Some(lines) => {
            let pv = lines@.map_values(|l: PrintedLine| printed_view(l));
            &&& r.additions as int == count_origin(pv, '+')
            &&& r.deletions as int == count_origin(pv, '-')
            &&& r.diff@ == utf8_lossy(patch_bytes(pv))
        },
        None => r.additions == 0 && r.deletions == 0 && r.diff@ == Seq::<char>::empty(),
    }
}

/// The commit-detail entry of one changed file (see `change_entry`).
pub fn file_change(path: Option<String>, kind: &DeltaKind, patch: &Option<Vec<PrintedLine>>) -> (r: FileChange)
    ensures
        change_entry(path, *kind, *patch, r),
{
    let p = match path {
        Some(p) => p,
        None => string_of(&chars_of("未知文件")),
    };
    let status = delta_status(kind);
    match patch {
        Some(lines) => {
            let (additions, deletions) = count_changed_lines(lines);
            let diff = decode_lossy(&patch_text_bytes(lines));
            FileChange { path: p, status, additions, deletions, diff }
        },
        None => FileChange { path: p, status, additions: 0, deletions: 0, diff: String::new() },
    }
}

/// What git2 gives for one changed file of a commit: its new path, how it
/// changed, and its printed patch when one could be made.
pub struct DeltaPatch {
    pub path: Option<String>,
    pub kind: DeltaKind,
    pub patch: Option<Vec<PrintedLine>>,
}

fn copy_path(p: &Option<String>) -> (r: Option<String>)
    ensures
        r == *p,
{
    match p {
        Some(s) => Some(s.clone()),
        None => None,
    }
}

/// The files of a commit's detail: one entry per changed file, in git2's
/// order, each made by `file_change` from its path, change and patch.
pub fn commit_files(deltas: &Vec<DeltaPatch>) -> (r: Vec<FileChange>)
    ensures
        r@.len() == deltas@.len(),
        forall|i: int| 0 <= i < deltas@.len() ==> change_entry(
            deltas@[i].path,
            deltas@[i].kind,
            deltas@[i].patch,
            #[trigger] r@[i],
        ),
{
    let mut r: Vec<FileChange> = Vec::new();
    let mut i: usize = 0;
    while i < deltas.len()
        invariant
            i <= deltas@.len(),
            r@.len() == i,
            forall|j: int| 0 <= j < i ==> change_entry(deltas@[j].path, deltas@[j].kind, deltas@[j].patch, #[trigger] r@[j]),
        decreases deltas.len() - i,
    {
        let d = &deltas[i];
        r.push(file_change(copy_path(&d.path), &d.kind, &d.patch));
        i = i + 1;
    }
    r
}

/// A commit's detail: its record and one entry per changed file.
pub struct CommitDetail {
    pub commit: Commit,
    pub files: Vec<FileChange>,
}

/// The detail of the commit `hash` with git2's author name, message, time
/// and changed files (in git2's order): its record (see `commit_record`)
/// and, per changed file, the entry `file_change` makes of it.
pub fn commit_detail(
    hash: String,
    author: Option<String>,
    message: Option<String>,
    secs: i64,
    deltas: &Vec<DeltaPatch>,
) -> (r: CommitDetail)
    ensures
        commit_record(r.commit, hash@, author, message, secs),
        r.files@.len() == deltas@.len(),
        forall|i: int| 0 <= i < deltas@.len() ==> change_entry(
            deltas@[i].path,
            deltas@[i].kind,
            deltas@[i].patch,
            #[trigger] r.files@[i],
        ),
{
    let commit = make_commit(hash, author, message, secs);
    let files = commit_files(deltas);
    CommitDetail { commit, files }
}

/// The change statistics count lines by origin alone: the added lines are
/// the printed lines whose origin is `+`, the removed lines those whose
/// origin is `-`, whatever their text (a blank line counts like any other).
pub proof fn law_changed_lines_count_by_origin(lines: Seq<(char, Seq<u8>)>, c: char)
    ensures
        count_origin(lines, c) == lines.filter(|l: (char, Seq<u8>)| l.0 == c).len(),
        count_origin(lines, c) == count_origin(lines.map_values(|l: (char, Seq<u8>)| (l.0, Seq::<u8>::empty())), c),
    decreases lines.len(),
{
    reveal(Seq::filter);
    if lines.len() > 0 {
        law_changed_lines_count_by_origin(lines.drop_last(), c);
        let blank = |l: (char, Seq<u8>)| (l.0, Seq::<u8>::empty());
        assert(lines.map_values(blank).drop_last() =~= lines.drop_last().map_values(blank));
        assert(lines.map_values(blank).last() == blank(lines.last()));
    }
}

} // verus!
