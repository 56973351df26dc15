//! Merge-conflict files: reading the `<<<<<<<` / `=======` / `>>>>>>>`
//! regions out of a file, and writing the file back with one chosen text
//! in place of each region.

use vstd::prelude::*;
use crate::text::{
    append_chars, chars_of, concat_all, copy_chars, decimal, decimal_chars, is_plain_text, join_with,
    join_with_exec, lemma_lines_of_terminated, lemma_plain_text_lines, lines_of, plain_line,
    split_lines, string_of, terminated,
};

verus! {

/// One conflict region: the text of our side and of their side, each the
/// region's lines joined by newlines.
pub struct ConflictBlock {
    pub ours_text: String,
    pub theirs_text: String,
}

impl View for ConflictBlock {
    type V = (Seq<char>, Seq<char>);

    open spec fn view(&self) -> (Seq<char>, Seq<char>) {
        (self.ours_text@, self.theirs_text@)
    }
}

/// A file split at its conflict regions.  `merged_parts[i]` is the plain
/// text before `blocks[i]`; the last part is the text after the last region.
pub struct ParsedConflicts {
    pub blocks: Vec<ConflictBlock>,
    pub merged_parts: Vec<String>,
}

impl ParsedConflicts {
    pub open spec fn block_texts(&self) -> Seq<(Seq<char>, Seq<char>)> {
        self.blocks@.map_values(|b: ConflictBlock| b@)
    }

    pub open spec fn part_texts(&self) -> Seq<Seq<char>> {
        self.merged_parts@.map_values(|p: String| p@)
    }
}

/// Where the reader stands: outside a region, in our side, in the common
/// ancestor section of a diff3-style region, or in their side.
pub enum ConflictParseState {
    Normal,
    Ours,
    Base,
    Theirs,
}

/// Whether `line` begins with seven copies of `c` (a conflict marker).
pub open spec fn is_marker(line: Seq<char>, c: char) -> bool {
    line.len() >= 7 && forall|i: int| 0 <= i < 7 ==> line[i] == c
}

/// The lines of `ls` joined by newlines (no newline after the last).
pub open spec fn join_lines(ls: Seq<Seq<char>>) -> Seq<char> {
    join_with(ls, '\n')
}

/// The reader's state after some lines of a file.
pub struct ConflictScan {
    pub blocks: Seq<(Seq<char>, Seq<char>)>,
    pub parts: Seq<Seq<char>>,
    pub current: Seq<char>,
    pub ours: Seq<Seq<char>>,
    pub theirs: Seq<Seq<char>>,
    pub mode: ConflictParseState,
}

pub open spec fn scan_start() -> ConflictScan {
    ConflictScan {
        blocks: seq![],
        parts: seq![],
        current: seq![],
        ours: seq![],
        theirs: seq![],
        mode: ConflictParseState::Normal,
    }
}

/// What one line does to the reader.  A `<<<<<<<` line opens a region only
/// outside one; `|||||||` starts the ancestor section, whose lines are
/// dropped; `=======` switches to their side; `>>>>>>>` closes the region.
/// Any other line is text of the current place.
pub open spec fn scan_step(st: ConflictScan, line: Seq<char>) -> ConflictScan {
    match st.mode {
        ConflictParseState::Normal => {
            if is_marker(line, '<') {
                ConflictScan { mode: ConflictParseState::Ours, ..st }
            } else {
                ConflictScan { current: st.current + line.push('\n'), ..st }
            }
        },
        ConflictParseState::Ours => {
            if is_marker(line, '|') {
                ConflictScan { mode: ConflictParseState::Base, ..st }
            } else if is_marker(line, '=') {
                ConflictScan { mode: ConflictParseState::Theirs, ..st }
            } else {
                ConflictScan { ours: st.ours.push(line), ..st }
            }
        },
        ConflictParseState::Base => {
            if is_marker(line, '=') {
                ConflictScan { mode: ConflictParseState::Theirs, ..st }
            } else {
                st
            }
        },
        ConflictParseState::Theirs => {
            if is_marker(line, '>') {
                ConflictScan {
                    blocks: st.blocks.push((join_lines(st.ours), join_lines(st.theirs))),
                    parts: st.parts.push(st.current),
                    current: seq![],
                    ours: seq![],
                    theirs: seq![],
                    mode: ConflictParseState::Normal,
                }
            } else {
                ConflictScan { theirs: st.theirs.push(line), ..st }
            }
        },
    }
}

/// The reader's state after the lines `lines`.
pub open spec fn conflict_scan(lines: Seq<Seq<char>>) -> ConflictScan
    decreases lines.len(),
{
    if lines.len() == 0 {
        scan_start()
    } else {
        scan_step(conflict_scan(lines.drop_last()), lines.last())
    }
}

/// The conflict regions of `content`, as (ours, theirs) texts.
pub open spec fn parsed_blocks(content: Seq<char>) -> Seq<(Seq<char>, Seq<char>)> {
    conflict_scan(lines_of(content)).blocks
}

/// The plain text around the conflict regions of `content`: one part before
/// each region and one after the last.  A region left open at the end of the
/// file is dropped.
pub open spec fn parsed_parts(content: Seq<char>) -> Seq<Seq<char>> {
    let sc = conflict_scan(lines_of(content));
    sc.parts.push(sc.current)
}

/// Whether the line starts with seven copies of `c`.
fn line_is_marker(line: &Vec<char>, c: char) -> (r: bool)
    ensures
        r == is_marker(line@, c),
{
    if line.len() < 7 {
        return false;
    }
    let mut i: usize = 0;
    while i < 7
        invariant
            i <= 7,
            line@.len() >= 7,
            forall|j: int| 0 <= j < i ==> line@[j] == c,
        decreases 7 - i,
    {
        if line[i] != c {
            return false;
        }
        i = i + 1;
    }
    true
}

/// Splits a file with merge markers into its conflict regions and the plain
/// text around them.
pub fn parse_conflict_content(content: &str) -> (parsed: ParsedConflicts)
    ensures
        parsed.block_texts() == parsed_blocks(content@),
        parsed.part_texts() == parsed_parts(content@),
{
    let chars = chars_of(content);
    let lines = split_lines(&chars);
    let ghost ls = lines.deep_view();
    let mut blocks: Vec<ConflictBlock> = Vec::new();
    let mut merged_parts: Vec<String> = Vec::new();
    let mut current: Vec<char> = Vec::new();
    let mut ours: Vec<Vec<char>> = Vec::new();
    let mut theirs: Vec<Vec<char>> = Vec::new();
    let mut state = ConflictParseState::Normal;
    let mut i: usize = 0;
    assert(ls.take(0) =~= Seq::<Seq<char>>::empty());
    assert(blocks@.map_values(|b: ConflictBlock| b@) =~= Seq::<(Seq<char>, Seq<char>)>::empty());
    assert(merged_parts@.map_values(|p: String| p@) =~= Seq::<Seq<char>>::empty());
    assert(ours.deep_view() =~= Seq::<Seq<char>>::empty());
    assert(theirs.deep_view() =~= Seq::<Seq<char>>::empty());
    while i < lines.len()
        invariant
            i <= lines@.len(),
            ls == lines.deep_view(),
            conflict_scan(ls.take(i as int)) == (ConflictScan {
                blocks: blocks@.map_values(|b: ConflictBlock| b@),
                parts: merged_parts@.map_values(|p: String| p@),
                current: current@,
                ours: ours.deep_view(),
                theirs: theirs.deep_view(),
                mode: state,
            }),
        decreases lines@.len() - i,
    {
        let line = &lines[i];
        let ghost before = ConflictScan {
            blocks: blocks@.map_values(|b: ConflictBlock| b@),
            parts: merged_parts@.map_values(|p: String| p@),
            current: current@,
            ours: ours.deep_view(),
            theirs: theirs.deep_view(),
            mode: state,
        };
        assert(ls.take(i + 1).drop_last() == ls.take(i as int));
        assert(ls.take(i + 1).last() == ls[i as int]);
        assert(line.deep_view() =~= line@);
        let ghost after = scan_step(before, line@);
        match state {
            ConflictParseState::Normal => {
                if line_is_marker(line, '<') {
                    state = ConflictParseState::Ours;
                } else {
                    append_chars(&mut current, line);
                    current.push('\n');
                }
            },
            ConflictParseState::Ours => {
                if line_is_marker(line, '|') {
                    state = ConflictParseState::Base;
                } else if line_is_marker(line, '=') {
                    state = ConflictParseState::Theirs;
                } else {
                    let copy = copy_chars(line);
                    assert(copy.deep_view() =~= copy@);
                    ours.push(copy);
                    assert(ours.deep_view() =~= before.ours.push(line@));
                }
            },
            ConflictParseState::Base => {
                if line_is_marker(line, '=') {
                    state = ConflictParseState::Theirs;
                }
            },
            ConflictParseState::Theirs => {
                if line_is_marker(line, '>') {
                    let ours_text = string_of(&join_with_exec(&ours, '\n'));
                    let theirs_text = string_of(&join_with_exec(&theirs, '\n'));
                    let block = ConflictBlock { ours_text, theirs_text };
                    blocks.push(block);
                    assert(blocks@.map_values(|b: ConflictBlock| b@) =~= before.blocks.push(
                        (join_lines(before.ours), join_lines(before.theirs)),
                    ));
                    merged_parts.push(string_of(&current));
                    assert(merged_parts@.map_values(|p: String| p@) =~= before.parts.push(
                        before.current,
                    ));
                    current = Vec::new();
                    ours = Vec::new();
                    theirs = Vec::new();
                    assert(ours.deep_view() =~= Seq::<Seq<char>>::empty());
                    assert(theirs.deep_view() =~= Seq::<Seq<char>>::empty());
                    state = ConflictParseState::Normal;
                } else {
                    let copy = copy_chars(line);
                    assert(copy.deep_view() =~= copy@);
                    theirs.push(copy);
                    assert(theirs.deep_view() =~= before.theirs.push(line@));
                }
            },
        }
        i = i + 1;
    }
    assert(ls.take(ls.len() as int) == ls);
    let ghost end = conflict_scan(ls);
    merged_parts.push(string_of(&current));
    assert(merged_parts@.map_values(|p: String| p@) =~= end.parts.push(end.current));
    ParsedConflicts { blocks, merged_parts }
}

/// The text written in place of region `i`: its resolution when one is
/// given and not empty, else our side.
pub open spec fn chosen_text(
    blocks: Seq<(Seq<char>, Seq<char>)>,
    resolutions: Seq<Seq<char>>,
    i: int,
) -> Seq<char> {
    if i < resolutions.len() && resolutions[i].len() > 0 {
        resolutions[i]
    } else {
        blocks[i].0
    }
}

/// A chosen text as it stands in the file: followed by a newline, or
/// nothing at all when it is empty.
pub open spec fn placed(text: Seq<char>) -> Seq<char> {
    if text.len() == 0 {
        seq![]
    } else {
        text.push('\n')
    }
}

/// The file up to and including region `n - 1`, each region replaced by its
/// chosen text.
pub open spec fn resolved_prefix(
    blocks: Seq<(Seq<char>, Seq<char>)>,
    parts: Seq<Seq<char>>,
    resolutions: Seq<Seq<char>>,
    n: nat,
) -> Seq<char>
    decreases n,
{
    if n == 0 {
        seq![]
    } else {
        resolved_prefix(blocks, parts, resolutions, (n - 1) as nat) + parts[n - 1] + placed(
            chosen_text(blocks, resolutions, n - 1),
        )
    }
}

/// The whole resolved file: every region replaced by its chosen text, then
/// the text after the last region.
pub open spec fn resolved_text(
    blocks: Seq<(Seq<char>, Seq<char>)>,
    parts: Seq<Seq<char>>,
    resolutions: Seq<Seq<char>>,
) -> Seq<char> {
    resolved_prefix(blocks, parts, resolutions, blocks.len()) + if parts.len() > 0 {
        parts.last()
    } else {
        seq![]
    }
}

/// Writes the file back with each conflict region replaced by its
/// resolution; an empty or missing resolution keeps our side.
pub fn build_resolved_content(parsed: &ParsedConflicts, resolutions: &[String]) -> (out: String)
    requires
        parsed.merged_parts@.len() >= parsed.blocks@.len(),
    ensures
        out@ == resolved_text(
            parsed.block_texts(),
            parsed.part_texts(),
            resolutions@.map_values(|r: String| r@),
        ),
{
    let ghost bt = parsed.block_texts();
    let ghost pt = parsed.part_texts();
    let ghost rt = resolutions@.map_values(|r: String| r@);
    let mut out: Vec<char> = Vec::new();
    let mut i: usize = 0;
    while i < parsed.blocks.len()
        invariant
            i <= parsed.blocks@.len(),
            parsed.merged_parts@.len() >= parsed.blocks@.len(),
            bt == parsed.block_texts(),
            pt == parsed.part_texts(),
            rt == resolutions@.map_values(|r: String| r@),
            out@ == resolved_prefix(bt, pt, rt, i as nat),
        decreases parsed.blocks@.len() - i,
    {
        let part = chars_of(parsed.merged_parts[i].as_str());
        append_chars(&mut out, &part);
        let use_ours = if i < resolutions.len() {
            resolutions[i].as_str().is_empty()
        } else {
            true
        };
        let chosen = if use_ours {
            chars_of(parsed.blocks[i].ours_text.as_str())
        } else {
            chars_of(resolutions[i].as_str())
        };
        assert(chosen@ == chosen_text(bt, rt, i as int));
        if chosen.len() > 0 {
            append_chars(&mut out, &chosen);
            out.push('\n');
        }
        i = i + 1;
    }
    let n = parsed.merged_parts.len();
    if n > 0 {
        let last = chars_of(parsed.merged_parts[n - 1].as_str());
        append_chars(&mut out, &last);
    }
    string_of(&out)
}

/// What the conflict view shows of one file: all of our sides and all of
/// their sides joined by newlines, the plain text without the regions, and
/// the regions themselves.
pub struct ConflictDetail {
    pub path: String,
    pub ours: String,
    pub theirs: String,
    pub merged: String,
    pub conflict_blocks: Vec<ConflictBlock>,
}

/// The conflict view of the file at `path` whose text is `content`.
pub fn conflict_detail(path: String, content: &str) -> (d: ConflictDetail)
    ensures
        d.path@ == path@,
        d.ours@ == join_lines(parsed_blocks(content@).map_values(|b: (Seq<char>, Seq<char>)| b.0)),
        d.theirs@ == join_lines(
            parsed_blocks(content@).map_values(|b: (Seq<char>, Seq<char>)| b.1),
        ),
        d.merged@ == concat_all(parsed_parts(content@)),
        d.conflict_blocks@.map_values(|b: ConflictBlock| b@) == parsed_blocks(content@),
{
    let parsed = parse_conflict_content(content);
    let ghost bt = parsed.block_texts();
    let mut ours: Vec<Vec<char>> = Vec::new();
    let mut theirs: Vec<Vec<char>> = Vec::new();
    let mut i: usize = 0;
    while i < parsed.blocks.len()
        invariant
            i <= parsed.blocks@.len(),
            bt == parsed.block_texts(),
            ours.deep_view() == bt.take(i as int).map_values(|b: (Seq<char>, Seq<char>)| b.0),
            theirs.deep_view() == bt.take(i as int).map_values(|b: (Seq<char>, Seq<char>)| b.1),
        decreases parsed.blocks@.len() - i,
    {
        let o = chars_of(parsed.blocks[i].ours_text.as_str());
        let t = chars_of(parsed.blocks[i].theirs_text.as_str());
        assert(o.deep_view() =~= o@);
        assert(t.deep_view() =~= t@);
        assert(bt[i as int] == parsed.blocks@[i as int]@);
        assert(bt.take(i + 1).map_values(|b: (Seq<char>, Seq<char>)| b.0) =~= bt.take(
            i as int,
        ).map_values(|b: (Seq<char>, Seq<char>)| b.0).push(o@));
        assert(bt.take(i + 1).map_values(|b: (Seq<char>, Seq<char>)| b.1) =~= bt.take(
            i as int,
        ).map_values(|b: (Seq<char>, Seq<char>)| b.1).push(t@));
        ours.push(o);
        theirs.push(t);
        assert(ours.deep_view() =~= bt.take(i + 1).map_values(|b: (Seq<char>, Seq<char>)| b.0));
        assert(theirs.deep_view() =~= bt.take(i + 1).map_values(
            |b: (Seq<char>, Seq<char>)| b.1,
        ));
        i = i + 1;
    }
    assert(bt.take(bt.len() as int) == bt);
    let ghost pt = parsed.part_texts();
    let mut merged: Vec<char> = Vec::new();
    let mut j: usize = 0;
    while j < parsed.merged_parts.len()
        invariant
            j <= parsed.merged_parts@.len(),
            pt == parsed.part_texts(),
            merged@ == concat_all(pt.take(j as int)),
        decreases parsed.merged_parts@.len() - j,
    {
        let p = chars_of(parsed.merged_parts[j].as_str());
        append_chars(&mut merged, &p);
        assert(pt.take(j + 1).drop_last() == pt.take(j as int));
        j = j + 1;
    }
    assert(pt.take(pt.len() as int) == pt);
    ConflictDetail {
        path,
        ours: string_of(&join_with_exec(&ours, '\n')),
        theirs: string_of(&join_with_exec(&theirs, '\n')),
        merged: string_of(&merged),
        conflict_blocks: parsed.blocks,
    }
}

/// The message for resolutions that no longer match the file's regions.
pub open spec fn stale_count_message(n: nat) -> Seq<char> {
    "文件冲突块数量已变化（当前 "@ + decimal(n) + " 个），请重新加载后再试"@
}

/// The new text of a conflicted file: `content` with its regions replaced by
/// `resolutions`, one per region.  When the file now has another number of
/// regions than resolutions were given, nothing is resolved.
pub fn resolve_conflict_content(content: &str, resolutions: &[String]) -> (r: Result<
    String,
    String,
>)
    ensures
        parsed_blocks(content@).len() != resolutions@.len() ==> (r matches Err(e) && e@
            == stale_count_message(parsed_blocks(content@).len())),
        parsed_blocks(content@).len() == resolutions@.len() ==> (r matches Ok(t) && t@
            == resolved_text(
            parsed_blocks(content@),
            parsed_parts(content@),
            resolutions@.map_values(|x: String| x@),
        )),
{
    let parsed = parse_conflict_content(content);
    proof {
        law_parts_outnumber_blocks_by_one(content@);
    }
    if parsed.blocks.len() != resolutions.len() {
        let mut msg = chars_of("文件冲突块数量已变化（当前 ");
        let n = decimal_chars(parsed.blocks.len());
        append_chars(&mut msg, &n);
        let tail = chars_of(" 个），请重新加载后再试");
        append_chars(&mut msg, &tail);
        return Err(string_of(&msg));
    }
    Ok(build_resolved_content(&parsed, resolutions))
}

/// The reader keeps one finished part per finished region.
proof fn lemma_scan_parts(lines: Seq<Seq<char>>)
    ensures
        conflict_scan(lines).parts.len() == conflict_scan(lines).blocks.len(),
    decreases lines.len(),
{
    if lines.len() > 0 {
        lemma_scan_parts(lines.drop_last());
    }
}

/// A parsed file always has exactly one more plain part than conflict
/// regions.
pub proof fn law_parts_outnumber_blocks_by_one(content: Seq<char>)
    ensures
        parsed_parts(content).len() == parsed_blocks(content).len() + 1,
{
    lemma_scan_parts(lines_of(content));
}

/// Without a `<<<<<<<` line the reader never leaves plain text.
proof fn lemma_scan_without_markers(lines: Seq<Seq<char>>)
    requires
        forall|i: int| 0 <= i < lines.len() ==> !is_marker(#[trigger] lines[i], '<'),
    ensures
        conflict_scan(lines) == (ConflictScan {
            blocks: seq![],
            parts: seq![],
            current: terminated(lines),
            ours: seq![],
            theirs: seq![],
            mode: ConflictParseState::Normal,
        }),
    decreases lines.len(),
{
    if lines.len() > 0 {
        let rest = lines.drop_last();
        assert forall|i: int| 0 <= i < rest.len() implies !is_marker(#[trigger] rest[i], '<') by {
            assert(rest[i] == lines[i]);
        }
        lemma_scan_without_markers(rest);
        assert(!is_marker(lines[lines.len() - 1], '<'));
    }
}

/// A file with no `<<<<<<<` line has no conflict regions, and its only
/// part is its lines, each ended by a newline.
pub proof fn law_no_marker_no_conflict(content: Seq<char>)
    requires
        forall|i: int|
            0 <= i < lines_of(content).len() ==> !is_marker(#[trigger] lines_of(content)[i], '<'),
    ensures
        parsed_blocks(content).len() == 0,
        parsed_parts(content) == seq![terminated(lines_of(content))],
{
    lemma_scan_without_markers(lines_of(content));
}

/// Resolving a plain file (no `<<<<<<<` line, ending in a newline,
/// without `\r\n`) gives the file back unchanged, whatever resolutions are
/// passed.
pub proof fn law_plain_file_resolves_to_itself(content: Seq<char>, resolutions: Seq<Seq<char>>)
    requires
        is_plain_text(content),
        forall|i: int|
            0 <= i < lines_of(content).len() ==> !is_marker(#[trigger] lines_of(content)[i], '<'),
    ensures
        resolved_text(parsed_blocks(content), parsed_parts(content), resolutions) == content,
{
    law_no_marker_no_conflict(content);
    lemma_plain_text_lines(content);
    assert(resolved_prefix(parsed_blocks(content), parsed_parts(content), resolutions, 0)
        =~= Seq::<char>::empty());
}

/// The reader's state after the lines `lines`, starting from `st`.
pub open spec fn scan_from(st: ConflictScan, lines: Seq<Seq<char>>) -> ConflictScan
    decreases lines.len(),
{
    if lines.len() == 0 {
        st
    } else {
        scan_step(scan_from(st, lines.drop_last()), lines.last())
    }
}

proof fn lemma_scan_from_start(lines: Seq<Seq<char>>)
    ensures
        conflict_scan(lines) == scan_from(scan_start(), lines),
    decreases lines.len(),
{
    if lines.len() > 0 {
        lemma_scan_from_start(lines.drop_last());
    }
}

proof fn lemma_scan_from_concat(st: ConflictScan, a: Seq<Seq<char>>, b: Seq<Seq<char>>)
    ensures
        scan_from(st, a + b) == scan_from(scan_from(st, a), b),
    decreases b.len(),
{
    if b.len() == 0 {
        assert(a + b =~= a);
    } else {
        lemma_scan_from_concat(st, a, b.drop_last());
        assert((a + b).drop_last() =~= a + b.drop_last());
        assert((a + b).last() == b.last());
    }
}

proof fn lemma_scan_one(st: ConflictScan, l: Seq<char>)
    ensures
        scan_from(st, seq![l]) == scan_step(st, l),
{
    assert(seq![l].drop_last() =~= Seq::<Seq<char>>::empty());
    assert(scan_from(st, Seq::<Seq<char>>::empty()) == st);
    assert(seq![l].last() == l);
}

/// Lines that may stand in the plain text of a conflicted file.
pub open spec fn text_lines_ok(p: Seq<Seq<char>>) -> bool {
    forall|i: int| 0 <= i < p.len() ==> plain_line(#[trigger] p[i]) && !is_marker(p[i], '<')
}

/// A conflict region as a merge writes it: the `<<<<<<<` line, our lines,
/// the `=======` line, their lines and the `>>>>>>>` line.  Our lines hold
/// no `|||||||` or `=======` marker, their lines no `>>>>>>>` marker.
pub open spec fn region_ok(r: (Seq<char>, Seq<Seq<char>>, Seq<char>, Seq<Seq<char>>, Seq<char>)) -> bool {
    &&& plain_line(r.0) && is_marker(r.0, '<')
    &&& plain_line(r.2) && is_marker(r.2, '=')
    &&& plain_line(r.4) && is_marker(r.4, '>')
    &&& forall|i: int| 0 <= i < r.1.len() ==> plain_line(#[trigger] r.1[i]) && !is_marker(r.1[i], '|') && !is_marker(r.1[i], '=')
    &&& forall|i: int| 0 <= i < r.3.len() ==> plain_line(#[trigger] r.3[i]) && !is_marker(r.3[i], '>')
}

/// The lines of a written region.
pub open spec fn region_lines(r: (Seq<char>, Seq<Seq<char>>, Seq<char>, Seq<Seq<char>>, Seq<char>)) -> Seq<Seq<char>> {
    seq![r.0] + r.1 + seq![r.2] + r.3 + seq![r.4]
}

/// The lines of a file written as `parts[0]`, region 0, `parts[1]`, ...,
/// the last region, the last part.
pub open spec fn written_lines(
    parts: Seq<Seq<Seq<char>>>,
    regions: Seq<(Seq<char>, Seq<Seq<char>>, Seq<char>, Seq<Seq<char>>, Seq<char>)>,
) -> Seq<Seq<char>>
    decreases regions.len(),
{
    if regions.len() == 0 {
        if parts.len() > 0 {
            parts[0]
        } else {
            seq![]
        }
    } else {
        written_lines(parts.drop_last(), regions.drop_last()) + region_lines(regions.last()) + parts.last()
    }
}

/// Reading plain text lines outside a region only adds them to the text.
proof fn lemma_scan_text(st: ConflictScan, p: Seq<Seq<char>>)
    requires
        st.mode == ConflictParseState::Normal,
        text_lines_ok(p),
    ensures
        scan_from(st, p) == (ConflictScan { current: st.current + terminated(p), ..st }),
    decreases p.len(),
{
    if p.len() == 0 {
        assert(st.current + terminated(p) =~= st.current);
    } else {
        let d = p.drop_last();
        assert(text_lines_ok(d)) by {
            assert forall|i: int| 0 <= i < d.len() implies plain_line(#[trigger] d[i]) && !is_marker(d[i], '<') by {
                assert(d[i] == p[i]);
            }
        }
        lemma_scan_text(st, d);
        assert(!is_marker(p[p.len() - 1], '<'));
        assert(st.current + terminated(d) + p.last().push('\n') =~= st.current + terminated(p));
    }
}

/// Reading our lines adds them to our side.
proof fn lemma_scan_ours(st: ConflictScan, o: Seq<Seq<char>>)
    requires
        st.mode == ConflictParseState::Ours,
        forall|i: int| 0 <= i < o.len() ==> !is_marker(#[trigger] o[i], '|') && !is_marker(o[i], '='),
    ensures
        scan_from(st, o) == (ConflictScan { ours: st.ours + o, ..st }),
    decreases o.len(),
{
    if o.len() == 0 {
        assert(st.ours + o =~= st.ours);
    } else {
        let d = o.drop_last();
        assert forall|i: int| 0 <= i < d.len() implies !is_marker(#[trigger] d[i], '|') && !is_marker(d[i], '=') by {
            assert(d[i] == o[i]);
        }
        lemma_scan_ours(st, d);
        assert(!is_marker(o[o.len() - 1], '|') && !is_marker(o[o.len() - 1], '='));
        assert((st.ours + d).push(o.last()) =~= st.ours + o);
    }
}

/// Reading their lines adds them to their side.
proof fn lemma_scan_theirs(st: ConflictScan, t: Seq<Seq<char>>)
    requires
        st.mode == ConflictParseState::Theirs,
        forall|i: int| 0 <= i < t.len() ==> !is_marker(#[trigger] t[i], '>'),
    ensures
        scan_from(st, t) == (ConflictScan { theirs: st.theirs + t, ..st }),
    decreases t.len(),
{
    if t.len() == 0 {
        assert(st.theirs + t =~= st.theirs);
    } else {
        let d = t.drop_last();
        assert forall|i: int| 0 <= i < d.len() implies !is_marker(#[trigger] d[i], '>') by {
            assert(d[i] == t[i]);
        }
        lemma_scan_theirs(st, d);
        assert(!is_marker(t[t.len() - 1], '>'));
        assert((st.theirs + d).push(t.last()) =~= st.theirs + t);
    }
}

/// Reading a written region from plain text closes it into one block and
/// one part.
proof fn lemma_scan_region(st: ConflictScan, r: (Seq<char>, Seq<Seq<char>>, Seq<char>, Seq<Seq<char>>, Seq<char>))
    requires
        st.mode == ConflictParseState::Normal,
        st.ours.len() == 0,
        st.theirs.len() == 0,
        region_ok(r),
    ensures
        scan_from(st, region_lines(r)) == (ConflictScan {
            blocks: st.blocks.push((join_lines(r.1), join_lines(r.3))),
            parts: st.parts.push(st.current),
            current: seq![],
            ours: seq![],
            theirs: seq![],
            mode: ConflictParseState::Normal,
        }),
{
    let s0 = scan_from(st, seq![r.0]);
    lemma_scan_one(st, r.0);
    assert(s0 == ConflictScan { mode: ConflictParseState::Ours, ..st });
    lemma_scan_ours(s0, r.1);
    let s1 = scan_from(s0, r.1);
    assert(s1.ours =~= r.1);
    let s2 = scan_from(s1, seq![r.2]);
    lemma_scan_one(s1, r.2);
    assert(s2 == ConflictScan { mode: ConflictParseState::Theirs, ..s1 }) by {
        assert(!is_marker(r.2, '|')) by {
            assert(r.2[0] == '=');
        }
    }
    lemma_scan_theirs(s2, r.3);
    let s3 = scan_from(s2, r.3);
    assert(s3.theirs =~= r.3);
    let s4 = scan_from(s3, seq![r.4]);
    lemma_scan_one(s3, r.4);
    lemma_scan_from_concat(st, seq![r.0], r.1);
    lemma_scan_from_concat(st, seq![r.0] + r.1, seq![r.2]);
    lemma_scan_from_concat(st, seq![r.0] + r.1 + seq![r.2], r.3);
    lemma_scan_from_concat(st, seq![r.0] + r.1 + seq![r.2] + r.3, seq![r.4]);
}

proof fn lemma_scan_written(
    parts: Seq<Seq<Seq<char>>>,
    regions: Seq<(Seq<char>, Seq<Seq<char>>, Seq<char>, Seq<Seq<char>>, Seq<char>)>,
)
    requires
        parts.len() == regions.len() + 1,
        forall|i: int| 0 <= i < parts.len() ==> text_lines_ok(#[trigger] parts[i]),
        forall|i: int| 0 <= i < regions.len() ==> region_ok(#[trigger] regions[i]),
    ensures
        conflict_scan(written_lines(parts, regions)) == (ConflictScan {
            blocks: regions.map_values(
                |r: (Seq<char>, Seq<Seq<char>>, Seq<char>, Seq<Seq<char>>, Seq<char>)| (join_lines(r.1), join_lines(r.3)),
            ),
            parts: parts.drop_last().map_values(|p: Seq<Seq<char>>| terminated(p)),
            current: terminated(parts.last()),
            ours: seq![],
            theirs: seq![],
            mode: ConflictParseState::Normal,
        }),
    decreases regions.len(),
{
    let blk = |r: (Seq<char>, Seq<Seq<char>>, Seq<char>, Seq<Seq<char>>, Seq<char>)| (join_lines(r.1), join_lines(r.3));
    let txt = |p: Seq<Seq<char>>| terminated(p);
    lemma_scan_from_start(written_lines(parts, regions));
    if regions.len() == 0 {
        assert(text_lines_ok(parts[0]));
        lemma_scan_text(scan_start(), parts[0]);
        assert(Seq::<char>::empty() + terminated(parts[0]) =~= terminated(parts[0]));
        assert(regions.map_values(blk) =~= Seq::<(Seq<char>, Seq<char>)>::empty());
        assert(parts.drop_last().map_values(txt) =~= Seq::<Seq<char>>::empty());
    } else {
        let pd = parts.drop_last();
        let rd = regions.drop_last();
        assert forall|i: int| 0 <= i < pd.len() implies text_lines_ok(#[trigger] pd[i]) by {
            assert(pd[i] == parts[i]);
        }
        assert forall|i: int| 0 <= i < rd.len() implies region_ok(#[trigger] rd[i]) by {
            assert(rd[i] == regions[i]);
        }
        lemma_scan_written(pd, rd);
        lemma_scan_from_start(written_lines(pd, rd));
        let w = written_lines(pd, rd);
        let st = scan_from(scan_start(), w);
        assert(region_ok(regions[regions.len() - 1]));
        lemma_scan_region(st, regions.last());
        let st2 = scan_from(st, region_lines(regions.last()));
        assert(text_lines_ok(parts[parts.len() - 1]));
        lemma_scan_text(st2, parts.last());
        lemma_scan_from_concat(scan_start(), w, region_lines(regions.last()));
        lemma_scan_from_concat(scan_start(), w + region_lines(regions.last()), parts.last());
        assert(Seq::<char>::empty() + terminated(parts.last()) =~= terminated(parts.last()));
        assert(regions.map_values(blk) =~= rd.map_values(blk).push(blk(regions.last())));
        assert(parts.drop_last().map_values(txt) =~= pd.drop_last().map_values(txt).push(terminated(pd.last())));
    }
}

/// What a merge writes, the reader gives back: a file made of plain text
/// parts and conflict regions between them reads as exactly those regions
/// (our and their lines, each side joined by newlines) and those parts.
pub proof fn law_written_conflicts_read_back(
    parts: Seq<Seq<Seq<char>>>,
    regions: Seq<(Seq<char>, Seq<Seq<char>>, Seq<char>, Seq<Seq<char>>, Seq<char>)>,
)
    requires
        parts.len() == regions.len() + 1,
        forall|i: int| 0 <= i < parts.len() ==> text_lines_ok(#[trigger] parts[i]),
        forall|i: int| 0 <= i < regions.len() ==> region_ok(#[trigger] regions[i]),
    ensures
        parsed_blocks(terminated(written_lines(parts, regions))) == regions.map_values(
            |r: (Seq<char>, Seq<Seq<char>>, Seq<char>, Seq<Seq<char>>, Seq<char>)| (join_lines(r.1), join_lines(r.3)),
        ),
        parsed_parts(terminated(written_lines(parts, regions))) == parts.map_values(
            |p: Seq<Seq<char>>| terminated(p),
        ),
{
    lemma_written_plain(parts, regions);
    lemma_lines_of_terminated(written_lines(parts, regions));
    lemma_scan_written(parts, regions);
    let txt = |p: Seq<Seq<char>>| terminated(p);
    assert(parts.map_values(txt) =~= parts.drop_last().map_values(txt).push(terminated(parts.last())));
}

/// Every written line is a plain line.
proof fn lemma_written_plain(
    parts: Seq<Seq<Seq<char>>>,
    regions: Seq<(Seq<char>, Seq<Seq<char>>, Seq<char>, Seq<Seq<char>>, Seq<char>)>,
)
    requires
        parts.len() == regions.len() + 1,
        forall|i: int| 0 <= i < parts.len() ==> text_lines_ok(#[trigger] parts[i]),
        forall|i: int| 0 <= i < regions.len() ==> region_ok(#[trigger] regions[i]),
    ensures
        forall|i: int| 0 <= i < written_lines(parts, regions).len() ==> plain_line(#[trigger] written_lines(parts, regions)[i]),
    decreases regions.len(),
{
    let w = written_lines(parts, regions);
    if regions.len() == 0 {
        assert(text_lines_ok(parts[0]));
    } else {
        let pd = parts.drop_last();
        let rd = regions.drop_last();
        assert forall|i: int| 0 <= i < pd.len() implies text_lines_ok(#[trigger] pd[i]) by {
            assert(pd[i] == parts[i]);
        }
        assert forall|i: int| 0 <= i < rd.len() implies region_ok(#[trigger] rd[i]) by {
            assert(rd[i] == regions[i]);
        }
        lemma_written_plain(pd, rd);
        let a = written_lines(pd, rd);
        let r = regions.last();
        assert(region_ok(regions[regions.len() - 1]));
        let rl = region_lines(r);
        let p = parts.last();
        assert(text_lines_ok(parts[parts.len() - 1]));
        assert forall|i: int| 0 <= i < w.len() implies plain_line(#[trigger] w[i]) by {
            if i < a.len() {
                assert(w[i] == a[i]);
            } else if i < a.len() + rl.len() {
                assert(w[i] == rl[i - a.len()]);
                let k = i - a.len();
                if k == 0 {
                } else if k <= r.1.len() {
                    assert(rl[k] == r.1[k - 1]);
                } else if k == r.1.len() + 1 {
                } else if k <= r.1.len() + 1 + r.3.len() {
                    assert(rl[k] == r.3[k - r.1.len() - 2]);
                }
            } else {
                assert(w[i] == p[i - a.len() - rl.len()]);
            }
        }
    }
}

/// The text chosen for region `i` of a written file: its resolution when
/// one is given and not empty, else our lines joined by newlines.
pub open spec fn chosen_for(
    regions: Seq<(Seq<char>, Seq<Seq<char>>, Seq<char>, Seq<Seq<char>>, Seq<char>)>,
    resolutions: Seq<Seq<char>>,
    i: int,
) -> Seq<char> {
    if i < resolutions.len() && resolutions[i].len() > 0 {
        resolutions[i]
    } else {
        join_lines(regions[i].1)
    }
}

/// A written file with each region replaced by its chosen text.
pub open spec fn resolved_written(
    parts: Seq<Seq<Seq<char>>>,
    regions: Seq<(Seq<char>, Seq<Seq<char>>, Seq<char>, Seq<Seq<char>>, Seq<char>)>,
    resolutions: Seq<Seq<char>>,
) -> Seq<char>
    decreases regions.len(),
{
    if regions.len() == 0 {
        if parts.len() > 0 {
            terminated(parts[0])
        } else {
            seq![]
        }
    } else {
        resolved_written(parts.drop_last(), regions.drop_last(), resolutions) + placed(
            chosen_for(regions, resolutions, regions.len() - 1),
        ) + terminated(parts.last())
    }
}

proof fn lemma_resolved_prefix_written(
    parts: Seq<Seq<Seq<char>>>,
    regions: Seq<(Seq<char>, Seq<Seq<char>>, Seq<char>, Seq<Seq<char>>, Seq<char>)>,
    resolutions: Seq<Seq<char>>,
    k: int,
)
    requires
        parts.len() == regions.len() + 1,
        0 <= k <= regions.len(),
    ensures
        resolved_prefix(
            regions.map_values(
                |r: (Seq<char>, Seq<Seq<char>>, Seq<char>, Seq<Seq<char>>, Seq<char>)| (join_lines(r.1), join_lines(r.3)),
            ),
            parts.map_values(|p: Seq<Seq<char>>| terminated(p)),
            resolutions,
            k as nat,
        ) + terminated(parts[k]) == resolved_written(parts.take(k + 1), regions.take(k), resolutions),
    decreases k,
{
    let blk = |r: (Seq<char>, Seq<Seq<char>>, Seq<char>, Seq<Seq<char>>, Seq<char>)| (join_lines(r.1), join_lines(r.3));
    let txt = |p: Seq<Seq<char>>| terminated(p);
    let b = regions.map_values(blk);
    let ps = parts.map_values(txt);
    if k == 0 {
        assert(regions.take(0) =~= Seq::<(Seq<char>, Seq<Seq<char>>, Seq<char>, Seq<Seq<char>>, Seq<char>)>::empty());
        assert(parts.take(1)[0] == parts[0]);
        assert(Seq::<char>::empty() + terminated(parts[0]) =~= terminated(parts[0]));
    } else {
        lemma_resolved_prefix_written(parts, regions, resolutions, k - 1);
        let pt = parts.take(k + 1);
        let rt = regions.take(k);
        assert(pt.drop_last() =~= parts.take(k));
        assert(rt.drop_last() =~= regions.take(k - 1));
        assert(pt.last() == parts[k]);
        assert(rt[k - 1] == regions[k - 1]);
        assert(chosen_for(rt, resolutions, k - 1) == chosen_text(b, resolutions, k - 1));
        assert(ps[k - 1] == terminated(parts[k - 1]));
        let pre = resolved_prefix(b, ps, resolutions, (k - 1) as nat);
        assert(pre + ps[k - 1] + placed(chosen_text(b, resolutions, k - 1)) + terminated(parts[k]) =~= (pre
            + terminated(parts[k - 1])) + placed(chosen_for(rt, resolutions, k - 1)) + terminated(pt.last()));
    }
}

/// Resolving a file that a merge wrote gives its plain parts back with
/// each region replaced by the text chosen for it: the resolution when one
/// is given and not empty, else our lines.
pub proof fn law_resolving_written_conflicts(
    parts: Seq<Seq<Seq<char>>>,
    regions: Seq<(Seq<char>, Seq<Seq<char>>, Seq<char>, Seq<Seq<char>>, Seq<char>)>,
    resolutions: Seq<Seq<char>>,
)
    requires
        parts.len() == regions.len() + 1,
        forall|i: int| 0 <= i < parts.len() ==> text_lines_ok(#[trigger] parts[i]),
        forall|i: int| 0 <= i < regions.len() ==> region_ok(#[trigger] regions[i]),
    ensures
        resolved_text(
            parsed_blocks(terminated(written_lines(parts, regions))),
            parsed_parts(terminated(written_lines(parts, regions))),
            resolutions,
        ) == resolved_written(parts, regions, resolutions),
{
    law_written_conflicts_read_back(parts, regions);
    let n = regions.len() as int;
    lemma_resolved_prefix_written(parts, regions, resolutions, n);
    assert(parts.take(n + 1) =~= parts);
    assert(regions.take(n) =~= regions);
    let txt = |p: Seq<Seq<char>>| terminated(p);
    assert(parts.map_values(txt).last() == terminated(parts[n]));
}

} // verus!
