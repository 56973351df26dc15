//! Character-level helpers shared by the parsers: Unicode whitespace,
//! line splitting as `str::lines` does it, and conversions between
//! strings and character vectors.

use vstd::prelude::*;
use vstd::std_specs::iter::IteratorSpec;
use vstd::utf8::{decode_utf8, valid_utf8};

verus! {

broadcast use vstd::string::group_string_axioms;

/// The Unicode `White_Space` property, which `char::is_whitespace` tests.
pub open spec fn is_ws(c: char) -> bool {
    ||| ('\u{9}' <= c && c <= '\u{d}')
    ||| c == ' '
    ||| c == '\u{85}'
    ||| c == '\u{a0}'
    ||| c == '\u{1680}'
    ||| ('\u{2000}' <= c && c <= '\u{200a}')
    ||| c == '\u{2028}'
    ||| c == '\u{2029}'
    ||| c == '\u{202f}'
    ||| c == '\u{205f}'
    ||| c == '\u{3000}'
}

/// Whether `c` is Unicode whitespace.
pub fn char_is_whitespace(c: char) -> (r: bool)
    ensures
        r == is_ws(c),
{
    ('\u{9}' <= c && c <= '\u{d}') || c == ' ' || c == '\u{85}' || c == '\u{a0}' || c
        == '\u{1680}' || ('\u{2000}' <= c && c <= '\u{200a}') || c == '\u{2028}' || c
        == '\u{2029}' || c == '\u{202f}' || c == '\u{205f}' || c == '\u{3000}'
}

/// The characters of `s`, in order.
pub fn chars_of(s: &str) -> (v: Vec<char>)
    ensures
        v@ == s@,
{
    let mut v: Vec<char> = Vec::new();
    for c in it: s.chars()
        invariant
            v@ == it.seq().take(it.index() as int),
            it.seq() == s@,
    {
        v.push(c);
    }
    v
}

/// A `String` holding exactly the characters of `v`: collects the
/// characters with `Iterator::collect`, which vstd does not specify for
/// `String`.
#[verifier::external_body]
pub(crate) fn string_of(v: &Vec<char>) -> (s: String)
    ensures
        s@ == v@,
{
    v.iter().collect()
}

/// Appends the characters of `src` to `dst`.
pub fn append_chars(dst: &mut Vec<char>, src: &Vec<char>)
    ensures
        final(dst)@ == old(dst)@ + src@,
{
    let mut i: usize = 0;
    while i < src.len()
        invariant
            i <= src@.len(),
            dst@ == old(dst)@ + src@.take(i as int),
        decreases src@.len() - i,
    {
        dst.push(src[i]);
        i = i + 1;
        assert(src@.take(i as int) == src@.take(i - 1).push(src@[i - 1]));
    }
    assert(src@.take(src@.len() as int) == src@);
}

/// Whether `a` and `b` hold the same characters.
pub fn same_chars(a: &Vec<char>, b: &Vec<char>) -> (r: bool)
    ensures
        r == (a@ == b@),
{
    if a.len() != b.len() {
        return false;
    }
    let mut i: usize = 0;
    while i < a.len()
        invariant
            i <= a@.len(),
            a@.len() == b@.len(),
            forall|j: int| 0 <= j < i ==> a@[j] == b@[j],
        decreases a@.len() - i,
    {
        if a[i] != b[i] {
            return false;
        }
        i = i + 1;
    }
    assert(a@ =~= b@);
    true
}

/// A copy of `v`.
pub fn copy_chars(v: &Vec<char>) -> (r: Vec<char>)
    ensures
        r@ == v@,
{
    let mut r: Vec<char> = Vec::new();
    append_chars(&mut r, v);
    r
}

/// `line` with one carriage return removed from its end, if it has one.
pub open spec fn strip_cr(line: Seq<char>) -> Seq<char> {
    if line.len() > 0 && line.last() == '\r' {
        line.drop_last()
    } else {
        line
    }
}

/// Reading `s` from the left: the lines ended so far, and the text of the
/// line still open.  A newline ends a line; a carriage return just before
/// the newline belongs to the line ending.
pub open spec fn line_scan(s: Seq<char>) -> (Seq<Seq<char>>, Seq<char>)
    decreases s.len(),
{
    if s.len() == 0 {
        (seq![], seq![])
    } else {
        let (done, open) = line_scan(s.drop_last());
        if s.last() == '\n' {
            (done.push(strip_cr(open)), seq![])
        } else {
            (done, open.push(s.last()))
        }
    }
}

/// The lines of `s`, as `str::lines` yields them: split at `\n` or `\r\n`,
/// terminators dropped, and no empty line after a final terminator.
pub open spec fn lines_of(s: Seq<char>) -> Seq<Seq<char>> {
    let (done, open) = line_scan(s);
    if open.len() > 0 {
        done.push(open)
    } else {
        done
    }
}

/// The character of decimal digit `d`.
pub open spec fn digit_char(d: nat) -> char {
    seq!['0', '1', '2', '3', '4', '5', '6', '7', '8', '9'][d as int]
}

/// The decimal numeral of `n`, without leading zeros.
pub open spec fn decimal(n: nat) -> Seq<char>
    decreases n,
{
    if n < 10 {
        seq![digit_char(n)]
    } else {
        decimal(n / 10).push(digit_char(n % 10))
    }
}

/// The decimal numeral of `n` (what `n.to_string()` gives).
pub fn decimal_chars(n: usize) -> (r: Vec<char>)
    ensures
        r@ == decimal(n as nat),
    decreases n,
{
    let digits = vec!['0', '1', '2', '3', '4', '5', '6', '7', '8', '9'];
    assert(digits@ == seq!['0', '1', '2', '3', '4', '5', '6', '7', '8', '9']);
    if n < 10 {
        let mut r: Vec<char> = Vec::new();
        r.push(digits[n]);
        r
    } else {
        let mut r = decimal_chars(n / 10);
        r.push(digits[n % 10]);
        r
    }
}

/// The strings `parts` one after another.
pub open spec fn concat_all(parts: Seq<Seq<char>>) -> Seq<char>
    decreases parts.len(),
{
    if parts.len() == 0 {
        seq![]
    } else {
        concat_all(parts.drop_last()) + parts.last()
    }
}

/// The pieces of `s` between occurrences of `sep`, as `str::split` gives
/// them (empty pieces included; the empty string is one empty piece).
pub open spec fn split_on(s: Seq<char>, sep: char) -> Seq<Seq<char>>
    decreases s.len(),
{
    if s.len() == 0 {
        seq![seq![]]
    } else {
        let r = split_on(s.drop_last(), sep);
        if s.last() == sep {
            r.push(seq![])
        } else {
            r.update(r.len() - 1, r.last().push(s.last()))
        }
    }
}

pub proof fn lemma_split_on_nonempty(s: Seq<char>, sep: char)
    ensures
        split_on(s, sep).len() >= 1,
    decreases s.len(),
{
    if s.len() > 0 {
        lemma_split_on_nonempty(s.drop_last(), sep);
    }
}

/// The pieces of `s` between occurrences of `sep` (see `split_on`).
pub fn split_on_exec(s: &Vec<char>, sep: char) -> (r: Vec<Vec<char>>)
    ensures
        r.deep_view() == split_on(s@, sep),
        r@.len() >= 1,
{
    let mut done: Vec<Vec<char>> = Vec::new();
    let mut open: Vec<char> = Vec::new();
    let mut i: usize = 0;
    assert(s@.take(0) =~= Seq::<char>::empty());
    assert(done.deep_view().push(open@) =~= seq![seq![]]);
    while i < s.len()
        invariant
            i <= s@.len(),
            done.deep_view().push(open@) == split_on(s@.take(i as int), sep),
        decreases s@.len() - i,
    {
        let c = s[i];
        assert(s@.take(i + 1).drop_last() == s@.take(i as int));
        let ghost before = done.deep_view();
        proof {
            lemma_split_on_nonempty(s@.take(i as int), sep);
        }
        if c == sep {
            let ghost old_open = open@;
            assert(open.deep_view() =~= open@);
            done.push(open);
            open = Vec::new();
            assert(done.deep_view() =~= before.push(old_open));
            assert(done.deep_view().push(open@) =~= before.push(old_open).push(seq![]));
        } else {
            open.push(c);
            assert(done.deep_view().push(open@) =~= before.push(open@.drop_last()).update(
                before.len() as int,
                open@,
            ));
        }
        i = i + 1;
    }
    assert(s@.take(s@.len() as int) == s@);
    let ghost before = done.deep_view();
    assert(open.deep_view() =~= open@);
    done.push(open);
    assert(done.deep_view() =~= before.push(done.deep_view().last()));
    done
}

/// The strings `ls` with `sep` between neighbours.
pub open spec fn join_with(ls: Seq<Seq<char>>, sep: char) -> Seq<char>
    decreases ls.len(),
{
    if ls.len() == 0 {
        seq![]
    } else if ls.len() == 1 {
        ls[0]
    } else {
        join_with(ls.drop_last(), sep) + seq![sep] + ls.last()
    }
}

/// The strings `ls` with `sep` between neighbours.
pub fn join_with_exec(ls: &Vec<Vec<char>>, sep: char) -> (r: Vec<char>)
    ensures
        r@ == join_with(ls.deep_view(), sep),
{
    let mut r: Vec<char> = Vec::new();
    let mut i: usize = 0;
    while i < ls.len()
        invariant
            i <= ls@.len(),
            r@ == join_with(ls.deep_view().take(i as int), sep),
        decreases ls@.len() - i,
    {
        let ghost dv = ls.deep_view();
        assert(dv.take(i + 1).drop_last() == dv.take(i as int));
        assert(ls[i as int].deep_view() =~= ls[i as int]@);
        if i > 0 {
            r.push(sep);
        } else {
            assert(dv.take(1) =~= seq![dv[0]]);
        }
        append_chars(&mut r, &ls[i]);
        i = i + 1;
    }
    assert(ls.deep_view().take(ls@.len() as int) == ls.deep_view());
    r
}

/// Whether `needle` occurs in `hay` at index `i`.
pub open spec fn occurs_at(hay: Seq<char>, needle: Seq<char>, i: int) -> bool {
    0 <= i && i + needle.len() <= hay.len() && hay.subrange(i, i + needle.len()) == needle
}

/// Whether `needle` occurs somewhere in `hay` (`str::contains`).
pub open spec fn contains_text(hay: Seq<char>, needle: Seq<char>) -> bool {
    exists|i: int| #[trigger] occurs_at(hay, needle, i)
}

/// Whether `needle` occurs in `hay`.
pub fn contains_text_exec(hay: &Vec<char>, needle: &Vec<char>) -> (r: bool)
    ensures
        r == contains_text(hay@, needle@),
{
    if needle.len() > hay.len() {
        assert forall|i: int| !occurs_at(hay@, needle@, i) by {}
        return false;
    }
    let last = hay.len() - needle.len();
    let mut i: usize = 0;
    loop
        invariant
            last == hay@.len() - needle@.len(),
            hay@.len() <= usize::MAX,
            i <= last,
            forall|j: int| 0 <= j < i ==> !occurs_at(hay@, needle@, j),
        decreases last - i,
    {
        let mut k: usize = 0;
        let mut same = true;
        while k < needle.len()
            invariant
                k <= needle@.len(),
                i + needle@.len() <= hay@.len(),
                hay@.len() <= usize::MAX,
                same ==> forall|m: int| 0 <= m < k ==> hay@[i + m] == needle@[m],
                !same ==> !occurs_at(hay@, needle@, i as int),
            decreases needle@.len() - k,
        {
            if hay[i + k] != needle[k] {
                same = false;
                assert(hay@.subrange(i as int, i + needle@.len())[k as int] != needle@[k as int]);
            }
            k = k + 1;
        }
        if same {
            assert(hay@.subrange(i as int, i + needle@.len()) =~= needle@);
            assert(occurs_at(hay@, needle@, i as int));
            return true;
        }
        if i == last {
            assert forall|j: int| !occurs_at(hay@, needle@, j) by {
                if 0 <= j && j < i {
                }
            }
            return false;
        }
        i = i + 1;
    }
}

/// The lines `ls`, each followed by a newline, one after another.
pub open spec fn terminated(ls: Seq<Seq<char>>) -> Seq<char>
    decreases ls.len(),
{
    if ls.len() == 0 {
        seq![]
    } else {
        terminated(ls.drop_last()) + ls.last().push('\n')
    }
}

/// Whether a carriage return stands right before a newline somewhere in `s`.
pub open spec fn has_crlf(s: Seq<char>) -> bool {
    exists|i: int| 0 <= i < s.len() - 1 && #[trigger] s[i] == '\r' && s[i + 1] == '\n'
}

/// Text that `lines_of` and `terminated` give back unchanged: empty or
/// ending in a newline, and without `\r\n` line ends.
pub open spec fn is_plain_text(s: Seq<char>) -> bool {
    &&& (s.len() == 0 || s.last() == '\n')
    &&& !has_crlf(s)
}

/// The open line is what follows the last newline; without `\r\n`, the
/// ended lines and the open line give back the text.
pub proof fn lemma_line_scan(s: Seq<char>)
    ensures
        line_scan(s).1.len() <= s.len(),
        line_scan(s).1 == s.subrange(s.len() - line_scan(s).1.len(), s.len() as int),
        !has_crlf(s) ==> terminated(line_scan(s).0) + line_scan(s).1 == s,
    decreases s.len(),
{
    if s.len() > 0 {
        let t = s.drop_last();
        lemma_line_scan(t);
        let (d, o) = line_scan(t);
        if !has_crlf(s) {
            assert(!has_crlf(t)) by {
                if has_crlf(t) {
                    let i = choose|i: int| 0 <= i < t.len() - 1 && #[trigger] t[i] == '\r' && t[i + 1] == '\n';
                    assert(s[i] == '\r' && s[i + 1] == '\n');
                }
            }
            if s.last() == '\n' {
                if o.len() > 0 {
                    assert(o.last() == t.last());
                    assert(s[t.len() - 1] == t.last());
                    assert(o.last() != '\r');
                }
                assert(strip_cr(o) == o);
                assert(d.push(o).drop_last() =~= d);
                assert(terminated(d.push(o)) == terminated(d) + o.push('\n'));
                assert(s =~= t.push('\n'));
            } else {
                assert(s =~= t.push(s.last()));
            }
        }
        if s.last() != '\n' {
            assert(o.push(s.last()) =~= s.subrange(s.len() - o.len() - 1, s.len() as int));
        }
    }
}

/// Whether `l` can stand as one line: no newline in it, and no carriage
/// return at its end.
pub open spec fn plain_line(l: Seq<char>) -> bool {
    &&& forall|i: int| 0 <= i < l.len() ==> l[i] != '\n'
    &&& !(l.len() > 0 && l.last() == '\r')
}

proof fn lemma_line_scan_append(x: Seq<char>, y: Seq<char>)
    requires
        forall|i: int| 0 <= i < y.len() ==> y[i] != '\n',
    ensures
        line_scan(x + y) == (line_scan(x).0, line_scan(x).1 + y),
    decreases y.len(),
{
    if y.len() == 0 {
        assert(x + y =~= x);
        assert(line_scan(x).1 + y =~= line_scan(x).1);
    } else {
        let y0 = y.drop_last();
        assert forall|i: int| 0 <= i < y0.len() implies y0[i] != '\n' by {
            assert(y0[i] == y[i]);
        }
        lemma_line_scan_append(x, y0);
        assert((x + y).drop_last() =~= x + y0);
        assert((x + y).last() == y[y.len() - 1]);
        assert((line_scan(x).1 + y0).push(y.last()) =~= line_scan(x).1 + y);
    }
}

/// Lines written one after another, each followed by a newline, read back
/// as the same lines.
pub proof fn lemma_lines_of_terminated(ls: Seq<Seq<char>>)
    requires
        forall|i: int| 0 <= i < ls.len() ==> plain_line(#[trigger] ls[i]),
    ensures
        line_scan(terminated(ls)) == (ls, Seq::<char>::empty()),
        lines_of(terminated(ls)) == ls,
    decreases ls.len(),
{
    if ls.len() == 0 {
        assert(ls =~= Seq::<Seq<char>>::empty());
    } else {
        let d = ls.drop_last();
        let l = ls.last();
        assert forall|i: int| 0 <= i < d.len() implies plain_line(#[trigger] d[i]) by {
            assert(d[i] == ls[i]);
        }
        lemma_lines_of_terminated(d);
        assert(plain_line(ls[ls.len() - 1]));
        lemma_line_scan_append(terminated(d), l);
        let t = terminated(d) + l;
        assert(terminated(ls) =~= t.push('\n'));
        assert(t.push('\n').drop_last() =~= t);
        assert(Seq::<char>::empty() + l =~= l);
        assert(strip_cr(l) == l);
        assert(d.push(l) =~= ls);
    }
}

/// Plain text is its lines, each followed by a newline.
pub proof fn lemma_plain_text_lines(s: Seq<char>)
    requires
        is_plain_text(s),
    ensures
        terminated(lines_of(s)) == s,
{
    lemma_line_scan(s);
    if s.len() > 0 {
        assert(line_scan(s).1.len() == 0);
    }
}

/// The lines of `s` (see `lines_of`).
pub fn split_lines(s: &Vec<char>) -> (lines: Vec<Vec<char>>)
    ensures
        lines.deep_view() == lines_of(s@),
{
    let mut lines: Vec<Vec<char>> = Vec::new();
    let mut open: Vec<char> = Vec::new();
    let mut i: usize = 0;
    while i < s.len()
        invariant
            i <= s@.len(),
            (lines.deep_view(), open@) == line_scan(s@.take(i as int)),
        decreases s@.len() - i,
    {
        let c = s[i];
        assert(s@.take(i + 1).drop_last() == s@.take(i as int));
        if c == '\n' {
            let n = open.len();
            if n > 0 && open[n - 1] == '\r' {
                open.pop();
            }
            let ghost before = lines.deep_view();
            let ghost line = open@;
            assert(line == strip_cr(line_scan(s@.take(i as int)).1));
            assert(open.deep_view() =~= open@);
            lines.push(open);
            assert(lines.deep_view() =~= before.push(line));
            open = Vec::new();
        } else {
            open.push(c);
        }
        i = i + 1;
    }
    assert(s@.take(s@.len() as int) == s@);
    if open.len() > 0 {
        let ghost before = lines.deep_view();
        let ghost line = open@;
        assert(open.deep_view() =~= open@);
        lines.push(open);
        assert(lines.deep_view() =~= before.push(line));
    }
    lines
}

/// Calls `std::str::from_utf8`: the text of `bytes` when they are valid
/// UTF-8, and `None` when they are not.
#[verifier::external_body]
fn utf8_text(bytes: &[u8]) -> (r: Option<String>)
    ensures
        r is Some <==> valid_utf8(bytes@),
        r matches Some(t) ==> t@ == decode_utf8(bytes@),
{
    std::str::from_utf8(bytes).ok().map(|t| t.to_string())
}

/// The text of `bytes` when they are valid UTF-8, else empty.
pub open spec fn strict_text_of(bytes: Seq<u8>) -> Seq<char> {
    if valid_utf8(bytes) {
        decode_utf8(bytes)
    } else {
        Seq::empty()
    }
}

/// The text of `bytes`, or the empty text when they are not valid UTF-8.
pub fn strict_text(bytes: &Vec<u8>) -> (r: String)
    ensures
        r@ == strict_text_of(bytes@),
{
    match utf8_text(bytes.as_slice()) {
        Some(t) => t,
        None => String::new(),
    }
}

} // verus!
