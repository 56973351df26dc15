//! The query console's SQL dialect: the older `CONTAINS 'text'` operator is
//! rewritten into SQLite's `LIKE '%text%'`, with the wildcards of the text
//! escaped.  Text inside string literals is never rewritten.

use vstd::prelude::*;
use crate::analysis::{capped_walk, count_char, first_n, law_capped_walk_keeps_the_first, line_origin_counts, somes};
use crate::diff::{decode_lossy, status_letter, utf8_lossy, delta_status, DeltaKind};
use crate::search::text_or_empty;
use crate::history::{commit_time_text, commit_views, record_commit, Commit};
use crate::text::{append_chars, chars_of, contains_text, contains_text_exec, decimal, is_ws, string_of};

verus! {

/// What `char::is_alphanumeric` answers for `c`: Unicode `Alphabetic` or
/// `Numeric`.
pub uninterp spec fn unicode_alphanumeric(c: char) -> bool;

/// Whether `c` is an ASCII letter or digit.
pub open spec fn ascii_alphanumeric(c: char) -> bool {
    ('a' <= c && c <= 'z') || ('A' <= c && c <= 'Z') || ('0' <= c && c <= '9')
}

/// Calls `char::is_alphanumeric`.  Its answer is named by
/// `unicode_alphanumeric`; for ASCII characters it is the ASCII letters and
/// digits (the only ASCII characters with the `Alphabetic` or `Numeric`
/// property).  Which other characters qualify is left unsaid.
#[verifier::external_body]
fn char_is_alphanumeric(c: char) -> (r: bool)
    ensures
        r == unicode_alphanumeric(c),
        (c as u32) < 128 ==> (r <==> ascii_alphanumeric(c)),
{
    c.is_alphanumeric()
}

/// A character that belongs to a word: alphanumeric or `_`.  Below 128 the
/// alphanumeric characters are the ASCII letters and digits; above, the
/// answer is `char::is_alphanumeric`'s.
pub open spec fn is_word_char(c: char) -> bool {
    if (c as u32) < 128 {
        ascii_alphanumeric(c) || c == '_'
    } else {
        unicode_alphanumeric(c)
    }
}

fn word_char(c: char) -> (r: bool)
    ensures
        r == is_word_char(c),
{
    c == '_' || char_is_alphanumeric(c)
}

/// The index just after the string literal whose text starts at `j` (a
/// doubled quote stands for a quote inside it), or the end of `s` when the
/// literal is never closed.
pub open spec fn literal_end(s: Seq<char>, j: int) -> int
    decreases s.len() - j,
{
    if j >= s.len() {
        s.len() as int
    } else if s[j] == '\'' {
        if j + 1 < s.len() && s[j + 1] == '\'' {
            literal_end(s, j + 2)
        } else {
            j + 1
        }
    } else {
        literal_end(s, j + 1)
    }
}

/// The first index at or after `j` that does not hold a word character.
pub open spec fn word_end(s: Seq<char>, j: int) -> int
    decreases s.len() - j,
{
    if j >= s.len() {
        s.len() as int
    } else if is_word_char(s[j]) {
        word_end(s, j + 1)
    } else {
        j
    }
}

/// The first index at or after `j` that does not hold whitespace.
pub open spec fn ws_end(s: Seq<char>, j: int) -> int
    decreases s.len() - j,
{
    if j >= s.len() {
        s.len() as int
    } else if is_ws(s[j]) {
        ws_end(s, j + 1)
    } else {
        j
    }
}

/// The first index at or after `j` that holds a quote, or the end of `s`.
pub open spec fn quote_at_or_after(s: Seq<char>, j: int) -> int
    decreases s.len() - j,
{
    if j >= s.len() {
        s.len() as int
    } else if s[j] == '\'' {
        j
    } else {
        quote_at_or_after(s, j + 1)
    }
}

pub proof fn lemma_literal_end_bounds(s: Seq<char>, j: int)
    requires
        0 <= j,
    ensures
        j <= s.len() ==> j <= literal_end(s, j) <= s.len(),
        j > s.len() ==> literal_end(s, j) == s.len(),
        literal_end(s, j) < s.len() ==> literal_end(s, j) >= 1 && s[literal_end(s, j) - 1] == '\'',
    decreases s.len() - j,
{
    if j < s.len() {
        if s[j] == '\'' {
            if j + 1 < s.len() && s[j + 1] == '\'' {
                lemma_literal_end_bounds(s, j + 2);
            }
        } else {
            lemma_literal_end_bounds(s, j + 1);
        }
    }
}

pub proof fn lemma_word_end_bounds(s: Seq<char>, j: int)
    requires
        0 <= j <= s.len(),
    ensures
        j <= word_end(s, j) <= s.len(),
        j < s.len() && is_word_char(s[j]) ==> j < word_end(s, j),
        word_end(s, j) < s.len() ==> !is_word_char(s[word_end(s, j)]),
        forall|k: int| j <= k < word_end(s, j) ==> is_word_char(#[trigger] s[k]),
    decreases s.len() - j,
{
    if j < s.len() && is_word_char(s[j]) {
        lemma_word_end_bounds(s, j + 1);
    }
}

pub proof fn lemma_ws_end_bounds(s: Seq<char>, j: int)
    requires
        0 <= j <= s.len(),
    ensures
        j <= ws_end(s, j) <= s.len(),
    decreases s.len() - j,
{
    if j < s.len() && is_ws(s[j]) {
        lemma_ws_end_bounds(s, j + 1);
    }
}

pub proof fn lemma_quote_bounds(s: Seq<char>, j: int)
    requires
        0 <= j <= s.len(),
    ensures
        j <= quote_at_or_after(s, j) <= s.len(),
        quote_at_or_after(s, j) < s.len() ==> s[quote_at_or_after(s, j)] == '\'',
        forall|k: int| j <= k < quote_at_or_after(s, j) ==> s[k] != '\'',
    decreases s.len() - j,
{
    if j < s.len() && s[j] != '\'' {
        lemma_quote_bounds(s, j + 1);
    }
}

/// `c` with ASCII upper case letters turned to lower case.
pub open spec fn ascii_lower(c: char) -> char {
    if 'A' <= c && c <= 'Z' {
        ((c as u32) + 32) as char
    } else {
        c
    }
}

/// Whether `w` is the word `contains` in any mix of ASCII cases.
pub open spec fn is_contains_keyword(w: Seq<char>) -> bool {
    let k = seq!['c', 'o', 'n', 't', 'a', 'i', 'n', 's'];
    w.len() == 8 && forall|i: int| 0 <= i < 8 ==> ascii_lower(w[i]) == k[i]
}

/// The text of a `LIKE` pattern character: `\`, `%` and `_` get a
/// backslash in front of them.
pub open spec fn escape_like_char(c: char) -> Seq<char> {
    if c == '\\' || c == '%' || c == '_' {
        seq!['\\', c]
    } else {
        seq![c]
    }
}

/// `v` with each `\`, `%` and `_` escaped by a backslash.
pub open spec fn escape_like(v: Seq<char>) -> Seq<char>
    decreases v.len(),
{
    if v.len() == 0 {
        seq![]
    } else {
        escape_like(v.drop_last()) + escape_like_char(v.last())
    }
}

/// What `CONTAINS 'v'` becomes.
pub open spec fn like_clause(v: Seq<char>) -> Seq<char> {
    "LIKE '%"@ + escape_like(v) + "%' ESCAPE '\\'"@
}

/// The rewritten text of `s` from index `i` on.  A string literal is copied
/// as it stands.  A word is copied, except the word `contains` (any ASCII
/// case) followed, after optional whitespace, by a quote and a later quote:
/// the keyword and the quoted text up to that next quote become a `LIKE`
/// clause.  Every other character is copied.
pub open spec fn rewrite_from(s: Seq<char>, i: int) -> Seq<char>
    decreases s.len() - i,
{
    if i < 0 || i >= s.len() {
        seq![]
    } else if s[i] == '\'' {
        proof {
            lemma_literal_end_bounds(s, i + 1);
        }
        let e = literal_end(s, i + 1);
        s.subrange(i, e) + rewrite_from(s, e)
    } else if is_word_char(s[i]) {
        proof {
            lemma_word_end_bounds(s, i);
        }
        let we = word_end(s, i);
        let w = s.subrange(i, we);
        if is_contains_keyword(w) {
            proof {
                lemma_ws_end_bounds(s, we);
            }
            let j = ws_end(s, we);
            if j < s.len() && s[j] == '\'' {
                proof {
                    lemma_quote_bounds(s, j + 1);
                }
                let k = quote_at_or_after(s, j + 1);
                if k < s.len() {
                    like_clause(s.subrange(j + 1, k)) + rewrite_from(s, k + 1)
                } else {
                    w + rewrite_from(s, we)
                }
            } else {
                w + rewrite_from(s, we)
            }
        } else {
            w + rewrite_from(s, we)
        }
    } else {
        seq![s[i]] + rewrite_from(s, i + 1)
    }
}

/// The rewrite of the whole query.
pub open spec fn rewritten(s: Seq<char>) -> Seq<char> {
    rewrite_from(s, 0)
}

/// Whether `contains` (any ASCII case) starts at index `p` of `s`.
pub open spec fn keyword_at(s: Seq<char>, p: int) -> bool {
    0 <= p && p + 8 <= s.len() && is_contains_keyword(s.subrange(p, p + 8))
}

proof fn lemma_rewrite_identity(s: Seq<char>, i: int)
    requires
        0 <= i <= s.len(),
        (forall|k: int| 0 <= k < s.len() ==> s[k] != '\'') || (forall|p: int|
            !#[trigger] keyword_at(s, p)),
    ensures
        rewrite_from(s, i) == s.subrange(i, s.len() as int),
    decreases s.len() - i,
{
    if i < s.len() {
        if s[i] == '\'' {
            lemma_literal_end_bounds(s, i + 1);
            let e = literal_end(s, i + 1);
            lemma_rewrite_identity(s, e);
            assert(s.subrange(i, e) + s.subrange(e, s.len() as int) =~= s.subrange(
                i,
                s.len() as int,
            ));
        } else if is_word_char(s[i]) {
            lemma_word_end_bounds(s, i);
            let we = word_end(s, i);
            let w = s.subrange(i, we);
            lemma_rewrite_identity(s, we);
            assert(w + s.subrange(we, s.len() as int) =~= s.subrange(i, s.len() as int));
            if is_contains_keyword(w) {
                assert(keyword_at(s, i)) by {
                    assert(s.subrange(i, i + 8) =~= w);
                }
                lemma_ws_end_bounds(s, we);
                let j = ws_end(s, we);
                if j < s.len() {
                    assert(s[j] != '\'');
                }
            }
        } else {
            lemma_rewrite_identity(s, i + 1);
            assert(seq![s[i]] + s.subrange(i + 1, s.len() as int) =~= s.subrange(
                i,
                s.len() as int,
            ));
        }
    } else {
        assert(s.subrange(i, s.len() as int) =~= Seq::<char>::empty());
    }
}

/// A query without any quote is left unchanged, since `CONTAINS` is
/// rewritten only in front of a string literal.
pub proof fn law_rewrite_without_quotes_is_identity(s: Seq<char>)
    requires
        forall|k: int| 0 <= k < s.len() ==> s[k] != '\'',
    ensures
        rewritten(s) == s,
{
    lemma_rewrite_identity(s, 0);
    assert(s.subrange(0, s.len() as int) =~= s);
}

/// A query in which `contains` occurs nowhere (in any ASCII case) is
/// left unchanged.
pub proof fn law_rewrite_without_keyword_is_identity(s: Seq<char>)
    requires
        forall|p: int| !#[trigger] keyword_at(s, p),
    ensures
        rewritten(s) == s,
{
    lemma_rewrite_identity(s, 0);
    assert(s.subrange(0, s.len() as int) =~= s);
}

/// Whether the whole word `contains` (any ASCII case) starts at index `p`:
/// no word character right before it or right after it.
pub open spec fn keyword_word_at(s: Seq<char>, p: int) -> bool {
    &&& keyword_at(s, p)
    &&& (p == 0 || !is_word_char(s[p - 1]))
    &&& (p + 8 == s.len() || !is_word_char(s[p + 8]))
}

/// Whether, from index `q` on, optional whitespace is followed by a quote
/// that a later quote closes.
pub open spec fn literal_follows(s: Seq<char>, q: int) -> bool {
    let j = ws_end(s, q);
    &&& j < s.len()
    &&& s[j] == '\''
    &&& quote_at_or_after(s, j + 1) < s.len()
}

/// Whether the scan of `s` from index `i` (stepping over each string
/// literal whole) reaches index `p`: then `p` stands outside every literal.
pub open spec fn outside_from(s: Seq<char>, i: int, p: int) -> bool
    decreases s.len() - i,
{
    if i < 0 || i > p {
        false
    } else if i == p {
        true
    } else if i >= s.len() {
        false
    } else if s[i] == '\'' {
        proof {
            lemma_literal_end_bounds(s, i + 1);
        }
        outside_from(s, literal_end(s, i + 1), p)
    } else {
        outside_from(s, i + 1, p)
    }
}

/// Whether index `p` of `s` stands outside every string literal.
pub open spec fn outside_literals(s: Seq<char>, p: int) -> bool {
    outside_from(s, 0, p)
}

proof fn lemma_outside_step(s: Seq<char>, k: int, i: int)
    requires
        0 <= k,
        0 <= i < s.len(),
        outside_from(s, k, i),
    ensures
        s[i] != '\'' ==> outside_from(s, k, i + 1),
        s[i] == '\'' ==> outside_from(s, k, literal_end(s, i + 1)),
    decreases i - k,
{
    lemma_literal_end_bounds(s, i + 1);
    if k < i {
        lemma_literal_end_bounds(s, k + 1);
        let next = if s[k] == '\'' {
            literal_end(s, k + 1)
        } else {
            k + 1
        };
        assert(outside_from(s, next, i));
        assert(k < next <= i);
        lemma_outside_step(s, next, i);
    } else {
        assert(k == i);
        if s[i] == '\'' {
            assert(outside_from(s, literal_end(s, i + 1), literal_end(s, i + 1)));
        } else {
            assert(outside_from(s, i + 1, i + 1));
        }
    }
}

proof fn lemma_outside_walk(s: Seq<char>, i: int, j: int)
    requires
        0 <= i <= j <= s.len(),
        outside_literals(s, i),
        forall|k: int| i <= k < j ==> s[k] != '\'',
    ensures
        outside_literals(s, j),
    decreases j - i,
{
    if i < j {
        lemma_outside_step(s, 0, i);
        lemma_outside_walk(s, i + 1, j);
    }
}

proof fn lemma_rewrite_identity_words(s: Seq<char>, i: int)
    requires
        0 <= i <= s.len(),
        outside_literals(s, i),
        i == 0 || i == s.len() || !is_word_char(s[i - 1]) || !is_word_char(s[i]),
        forall|p: int| #[trigger] keyword_word_at(s, p) && outside_literals(s, p) ==> !literal_follows(s, p + 8),
    ensures
        rewrite_from(s, i) == s.subrange(i, s.len() as int),
    decreases s.len() - i,
{
    if i < s.len() {
        lemma_outside_step(s, 0, i);
        if s[i] == '\'' {
            lemma_literal_end_bounds(s, i + 1);
            let e = literal_end(s, i + 1);
            lemma_rewrite_identity_words(s, e);
            assert(s.subrange(i, e) + s.subrange(e, s.len() as int) =~= s.subrange(
                i,
                s.len() as int,
            ));
        } else if is_word_char(s[i]) {
            lemma_word_end_bounds(s, i);
            let we = word_end(s, i);
            let w = s.subrange(i, we);
            assert forall|k: int| i <= k < we implies s[k] != '\'' by {
                assert(is_word_char(s[k]));
            }
            lemma_outside_walk(s, i, we);
            lemma_rewrite_identity_words(s, we);
            assert(w + s.subrange(we, s.len() as int) =~= s.subrange(i, s.len() as int));
            if is_contains_keyword(w) {
                assert(keyword_at(s, i)) by {
                    assert(s.subrange(i, i + 8) =~= w);
                }
                assert(keyword_word_at(s, i));
                assert(!literal_follows(s, i + 8));
                lemma_ws_end_bounds(s, we);
            }
        } else {
            lemma_rewrite_identity_words(s, i + 1);
            assert(seq![s[i]] + s.subrange(i + 1, s.len() as int) =~= s.subrange(
                i,
                s.len() as int,
            ));
        }
    } else {
        assert(s.subrange(i, s.len() as int) =~= Seq::<char>::empty());
    }
}

/// The rewrite changes nothing unless the whole word `contains` (any ASCII
/// case), standing outside every string literal, is followed, after
/// optional whitespace, by a closed string literal: a query in which no
/// such word is so followed (in particular, one in which the word occurs
/// outside literals nowhere) comes back as it was.
pub proof fn law_rewrite_only_before_a_literal(s: Seq<char>)
    requires
        forall|p: int| #[trigger] keyword_word_at(s, p) && outside_literals(s, p) ==> !literal_follows(s, p + 8),
    ensures
        rewritten(s) == s,
{
    assert(outside_literals(s, 0));
    lemma_rewrite_identity_words(s, 0);
    assert(s.subrange(0, s.len() as int) =~= s);
}

fn literal_end_exec(s: &Vec<char>, j: usize) -> (r: usize)
    requires
        j <= s@.len(),
    ensures
        r == literal_end(s@, j as int),
{
    let mut p: usize = j;
    while p < s.len()
        invariant
            j <= p <= s@.len(),
            literal_end(s@, j as int) == literal_end(s@, p as int),
        decreases s@.len() - p,
    {
        if s[p] == '\'' {
            if p + 1 < s.len() && s[p + 1] == '\'' {
                p = p + 2;
            } else {
                return p + 1;
            }
        } else {
            p = p + 1;
        }
    }
    p
}

fn word_end_exec(s: &Vec<char>, j: usize) -> (r: usize)
    requires
        j <= s@.len(),
    ensures
        r == word_end(s@, j as int),
{
    let mut p: usize = j;
    while p < s.len() && word_char(s[p])
        invariant
            j <= p <= s@.len(),
            word_end(s@, j as int) == word_end(s@, p as int),
        decreases s@.len() - p,
    {
        p = p + 1;
    }
    p
}

fn ws_end_exec(s: &Vec<char>, j: usize) -> (r: usize)
    requires
        j <= s@.len(),
    ensures
        r == ws_end(s@, j as int),
{
    let mut p: usize = j;
    while p < s.len() && crate::text::char_is_whitespace(s[p])
        invariant
            j <= p <= s@.len(),
            ws_end(s@, j as int) == ws_end(s@, p as int),
        decreases s@.len() - p,
    {
        p = p + 1;
    }
    p
}

fn quote_exec(s: &Vec<char>, j: usize) -> (r: usize)
    requires
        j <= s@.len(),
    ensures
        r == quote_at_or_after(s@, j as int),
{
    let mut p: usize = j;
    while p < s.len() && s[p] != '\''
        invariant
            j <= p <= s@.len(),
            quote_at_or_after(s@, j as int) == quote_at_or_after(s@, p as int),
        decreases s@.len() - p,
    {
        p = p + 1;
    }
    p
}

fn is_contains_keyword_exec(s: &Vec<char>, from: usize, to: usize) -> (r: bool)
    requires
        from <= to <= s@.len(),
    ensures
        r == is_contains_keyword(s@.subrange(from as int, to as int)),
{
    if to - from != 8 {
        return false;
    }
    let k = vec!['c', 'o', 'n', 't', 'a', 'i', 'n', 's'];
    let upper = vec!['C', 'O', 'N', 'T', 'A', 'I', 'N', 'S'];
    assert(k@ == seq!['c', 'o', 'n', 't', 'a', 'i', 'n', 's']);
    assert(upper@ == seq!['C', 'O', 'N', 'T', 'A', 'I', 'N', 'S']);
    let ghost w = s@.subrange(from as int, to as int);
    let mut i: usize = 0;
    while i < 8
        invariant
            i <= 8,
            to - from == 8,
            from <= to <= s@.len(),
            w == s@.subrange(from as int, to as int),
            k@ == seq!['c', 'o', 'n', 't', 'a', 'i', 'n', 's'],
            upper@ == seq!['C', 'O', 'N', 'T', 'A', 'I', 'N', 'S'],
            forall|m: int| 0 <= m < i ==> ascii_lower(w[m]) == k@[m],
        decreases 8 - i,
    {
        let c = s[from + i];
        assert(w[i as int] == c);
        if c != k[i] && c != upper[i] {
            return false;
        }
        i = i + 1;
    }
    true
}

/// Appends the `LIKE` clause for the literal text `s[from..to]`.
fn push_like_clause(out: &mut Vec<char>, s: &Vec<char>, from: usize, to: usize)
    requires
        from <= to <= s@.len(),
    ensures
        final(out)@ == old(out)@ + like_clause(s@.subrange(from as int, to as int)),
{
    let head = chars_of("LIKE '%");
    append_chars(out, &head);
    let ghost v = s@.subrange(from as int, to as int);
    let ghost start = out@;
    let mut p: usize = from;
    while p < to
        invariant
            from <= p <= to <= s@.len(),
            v == s@.subrange(from as int, to as int),
            out@ == start + escape_like(v.take(p - from)),
        decreases to - p,
    {
        let c = s[p];
        assert(v.take(p - from + 1).drop_last() == v.take(p - from));
        assert(v[p - from] == c);
        if c == '\\' || c == '%' || c == '_' {
            out.push('\\');
        }
        out.push(c);
        p = p + 1;
    }
    assert(v.take(to - from) == v);
    let tail = chars_of("%' ESCAPE '\\'");
    append_chars(out, &tail);
}

/// Rewrites `CONTAINS 'text'` into `LIKE '%text%' ESCAPE '\'`, leaving string
/// literals and everything else as it stands.
pub fn rewrite_contains(sql: &str) -> (r: String)
    ensures
        r@ == rewritten(sql@),
{
    let s = chars_of(sql);
    let mut out: Vec<char> = Vec::new();
    let mut i: usize = 0;
    while i < s.len()
        invariant
            i <= s@.len(),
            rewritten(s@) == out@ + rewrite_from(s@, i as int),
        decreases s@.len() - i,
    {
        let c = s[i];
        if c == '\'' {
            let e = literal_end_exec(&s, i + 1);
            proof {
                lemma_literal_end_bounds(s@, i + 1);
            }
            let mut p: usize = i;
            while p < e
                invariant
                    i <= p <= e <= s@.len(),
                    rewritten(s@) == out@ + s@.subrange(p as int, e as int) + rewrite_from(s@, e as int),
                decreases e - p,
            {
                let ghost rest = s@.subrange(p as int, e as int);
                assert(rest == seq![s@[p as int]] + s@.subrange(p + 1, e as int));
                out.push(s[p]);
                p = p + 1;
            }
            assert(s@.subrange(e as int, e as int) =~= Seq::<char>::empty());
            i = e;
        } else if word_char(c) {
            let we = word_end_exec(&s, i);
            proof {
                lemma_word_end_bounds(s@, i as int);
            }
            let mut done = false;
            if is_contains_keyword_exec(&s, i, we) {
                let j = ws_end_exec(&s, we);
                proof {
                    lemma_ws_end_bounds(s@, we as int);
                }
                if j < s.len() && s[j] == '\'' {
                    let k = quote_exec(&s, j + 1);
                    proof {
                        lemma_quote_bounds(s@, j + 1);
                    }
                    if k < s.len() {
                        push_like_clause(&mut out, &s, j + 1, k);
                        i = k + 1;
                        done = true;
                    }
                }
            }
            if !done {
                let mut p: usize = i;
                while p < we
                    invariant
                        i <= p <= we <= s@.len(),
                        rewritten(s@) == out@ + s@.subrange(p as int, we as int) + rewrite_from(
                            s@,
                            we as int,
                        ),
                    decreases we - p,
                {
                    let ghost rest = s@.subrange(p as int, we as int);
                    assert(rest == seq![s@[p as int]] + s@.subrange(p + 1, we as int));
                    out.push(s[p]);
                    p = p + 1;
                }
                assert(s@.subrange(we as int, we as int) =~= Seq::<char>::empty());
                i = we;
            }
        } else {
            out.push(c);
            i = i + 1;
        }
    }
    string_of(&out)
}

/// The message shown for an SQLite error whose text is `msg`: a missing
/// table gets the list of the tables that exist.
pub open spec fn sql_error_message_of(msg: Seq<char>) -> Seq<char> {
    if contains_text(msg, "no such table"@) {
        "表不存在，可用表: commits, file_changes（"@ + msg + "）"@
    } else {
        msg
    }
}

/// The message shown for an SQLite error whose text is `msg`.
pub fn sql_error_message(msg: &str) -> (r: String)
    ensures
        r@ == sql_error_message_of(msg@),
{
    let m = chars_of(msg);
    let needle = chars_of("no such table");
    if contains_text_exec(&m, &needle) {
        let mut out = chars_of("表不存在，可用表: commits, file_changes（");
        append_chars(&mut out, &m);
        let close = chars_of("）");
        append_chars(&mut out, &close);
        string_of(&out)
    } else {
        string_of(&m)
    }
}

#[verifier::external_type_specification]
#[verifier::external_body]
pub struct ExSqliteError(rusqlite::Error);

/// Calls `<rusqlite::Error as Display>::to_string`.  The text depends on
/// the error value, which is opaque here, so nothing is said of it.
#[verifier::external_body]
pub(crate) fn sqlite_error_text(e: &rusqlite::Error) -> (r: String) {
    e.to_string()
}

/// The message shown for an SQLite error: its text, with the list of tables
/// added when the error is about a missing table.
pub fn format_sql_error(e: &rusqlite::Error) -> (r: String)
    ensures
        exists|msg: Seq<char>| r@ == sql_error_message_of(msg),
{
    let msg = sqlite_error_text(e);
    sql_error_message(msg.as_str())
}

/// The kinds of statement step that SQLite asks the query console to allow.
pub enum SqlAction {
    Select,
    Read,
    Function,
    Other,
}

/// The query console is read-only: selecting, reading columns and calling
/// functions are allowed, everything else (writes, `ATTACH`, `PRAGMA`, ...)
/// is denied.
pub fn authorize(action: SqlAction) -> (allowed: bool)
    ensures
        allowed <==> !(action is Other),
{
    match action {
        SqlAction::Select | SqlAction::Read | SqlAction::Function => true,
        SqlAction::Other => false,
    }
}

/// One row of the `file_changes` table: a changed file of a commit.
pub struct FileChangeRow {
    pub commit_hash: String,
    pub file_path: String,
    pub status: String,
    pub additions: usize,
    pub deletions: usize,
}

/// The `file_changes` row of one changed file: its commit, its path (empty
/// when git2 gives none), its status letter, and the added and removed
/// lines of its own patch (both 0 when no patch could be printed).
pub fn change_row(hash: &String, path: Option<String>, kind: &DeltaKind, origins: &Option<Vec<char>>) -> (r: FileChangeRow)
    ensures
        r.commit_hash@ == hash@,
        r.file_path@ == text_or_empty(path),
        r.status@ == status_letter(*kind),
        match origins {
            Some(o) => r.additions as int == count_char(o@, '+') && r.deletions as int == count_char(
                o@,
                '-',
            ),
            None => r.additions == 0 && r.deletions == 0,
        },
{
    let (additions, deletions) = match origins {
        Some(o) => line_origin_counts(o),
        None => (0, 0),
    };
    let file_path = match path {
        Some(p) => p,
        None => String::new(),
    };
    FileChangeRow { commit_hash: hash.clone(), file_path, status: delta_status(kind), additions, deletions }
}

/// A value of a query result cell, as SQLite hands it out; a real number
/// comes as the text its `Display` gives.
pub enum CellValue {
    Null,
    Integer(i64),
    Real(String),
    Text(Vec<u8>),
    Blob(Vec<u8>),
}

/// The decimal numeral of `n`, with a `-` in front when it is negative.
pub open spec fn signed_decimal(n: int) -> Seq<char> {
    if n < 0 {
        seq!['-'] + decimal((-n) as nat)
    } else {
        decimal(n as nat)
    }
}

/// The decimal numeral of `n`.
fn decimal_u64(n: u64) -> (r: Vec<char>)
    ensures
        r@ == decimal(n as nat),
    decreases n,
{
    let digits = vec!['0', '1', '2', '3', '4', '5', '6', '7', '8', '9'];
    assert(digits@ == seq!['0', '1', '2', '3', '4', '5', '6', '7', '8', '9']);
    if n < 10 {
        let mut r: Vec<char> = Vec::new();
        r.push(digits[n as usize]);
        r
    } else {
        let mut r = decimal_u64(n / 10);
        r.push(digits[(n % 10) as usize]);
        r
    }
}

/// The text of a result cell: empty for NULL, the decimal numeral of an
/// integer, a real number's text as it comes, and text or blob bytes read
/// as lossy UTF-8.
pub open spec fn cell_text_of(c: CellValue) -> Seq<char> {
    match c {
        CellValue::Null => Seq::empty(),
        CellValue::Integer(n) => signed_decimal(n as int),
        CellValue::Real(t) => t@,
        CellValue::Text(b) => utf8_lossy(b@),
        CellValue::Blob(b) => utf8_lossy(b@),
    }
}

/// The text shown for a result cell.
pub fn cell_text(c: &CellValue) -> (r: String)
    ensures
        r@ == cell_text_of(*c),
{
    match c {
        CellValue::Null => String::new(),
        CellValue::Integer(n) => {
            let v = *n;
            if v < 0 {
                let magnitude: u64 = ((-(v + 1)) as u64) + 1;
                let mut out: Vec<char> = Vec::new();
                out.push('-');
                let digits = decimal_u64(magnitude);
                append_chars(&mut out, &digits);
                string_of(&out)
            } else {
                let digits = decimal_u64(v as u64);
                string_of(&digits)
            }
        },
        CellValue::Real(t) => t.clone(),
        CellValue::Text(b) => decode_lossy(b),
        CellValue::Blob(b) => decode_lossy(b),
    }
}

/// What git2 gives for one changed file of a commit read into the query
/// tables: its new path, how it changed, and the origin marks of its
/// printed patch when one could be made.
pub struct ChangedFile {
    pub path: Option<String>,
    pub kind: DeltaKind,
    pub origins: Option<Vec<char>>,
}

/// Whether `r` is the `file_changes` row of `f` in the commit `hash` (see
/// `change_row`).
pub open spec fn row_of(hash: Seq<char>, f: ChangedFile, r: FileChangeRow) -> bool {
    &&& r.commit_hash@ == hash
    &&& r.file_path@ == text_or_empty(f.path)
    &&& r.status@ == status_letter(f.kind)
    &&& match f.origins {
        Some(o) => r.additions as int == count_char(o@, '+') && r.deletions as int == count_char(o@, '-'),
        None => r.additions == 0 && r.deletions == 0,
    }
}

/// Whether every row names the hash of one of the commits.
pub open spec fn rows_belong(commits: Seq<Commit>, files: Seq<FileChangeRow>) -> bool {
    forall|j: int| 0 <= j < files.len() ==> exists|i: int| 0 <= i < commits.len() && (#[trigger] commits[i]).hash@ == (#[trigger] files[j]).commit_hash@
}

/// The commits a walk kept, each with its changed files, as the rows they
/// bring: one (commit hash, changed file) pair per file, commit after
/// commit.
pub open spec fn walk_rows(kept: Seq<(Seq<char>, Seq<ChangedFile>)>) -> Seq<(Seq<char>, ChangedFile)>
    decreases kept.len(),
{
    if kept.len() == 0 {
        seq![]
    } else {
        walk_rows(kept.drop_last()) + kept.last().1.map_values(|f: ChangedFile| (kept.last().0, f))
    }
}

/// Whether `rows` are exactly the rows of the kept commits, in order.
pub open spec fn rows_follow(kept: Seq<(Seq<char>, Seq<ChangedFile>)>, rows: Seq<FileChangeRow>) -> bool {
    &&& rows.len() == walk_rows(kept).len()
    &&& forall|j: int| 0 <= j < rows.len() ==> row_of(walk_rows(kept)[j].0, walk_rows(kept)[j].1, #[trigger] rows[j])
}

fn copy_opt(p: &Option<String>) -> (r: Option<String>)
    ensures
        r == *p,
{
    match p {
        Some(s) => Some(s.clone()),
        None => None,
    }
}

/// Adds a commit read into the query tables, with one row per changed
/// file, in order, and says whether the commit list is full (`limit`
/// commits).  Rows only ever name recorded commits, and a list read until
/// it is full never holds more than `limit` commits.
pub fn record_query_commit(
    commits: &mut Vec<Commit>,
    files: &mut Vec<FileChangeRow>,
    limit: usize,
    hash: String,
    author: Option<String>,
    message: Option<String>,
    secs: i64,
    changed: &Vec<ChangedFile>,
) -> (full: bool)
    ensures
        final(commits)@.len() == old(commits)@.len() + 1,
        commit_views(final(commits)@).drop_last() == commit_views(old(commits)@),
        final(commits)@.last().hash@ == hash@,
        final(commits)@.last().author@ == match author {
            Some(a) => a@,
            None => "未知"@,
        },
        final(commits)@.last().message@ == match message {
            Some(m) => m@,
            None => Seq::<char>::empty(),
        },
        final(commits)@.last().time@ == commit_time_text(secs),
        full == (final(commits)@.len() >= limit),
        final(files)@.len() == old(files)@.len() + changed@.len(),
        final(files)@.take(old(files)@.len() as int) == old(files)@,
        forall|k: int| 0 <= k < changed@.len() ==> row_of(hash@, changed@[k], #[trigger] final(files)@[old(files)@.len() + k]),
        rows_belong(old(commits)@, old(files)@) ==> rows_belong(final(commits)@, final(files)@),
        old(commits)@.len() < limit ==> final(commits)@.len() <= limit,
        forall|kept: Seq<(Seq<char>, Seq<ChangedFile>)>| #[trigger] rows_follow(kept, old(files)@) ==> rows_follow(
            kept.push((hash@, changed@)),
            final(files)@,
        ),
{
    let ghost c0 = commits@;
    let ghost f0 = files@;
    let mut k: usize = 0;
    while k < changed.len()
        invariant
            k <= changed@.len(),
            files@.len() == f0.len() + k,
            files@.take(f0.len() as int) == f0,
            forall|j: int| 0 <= j < k ==> row_of(hash@, changed@[j], #[trigger] files@[f0.len() + j]),
        decreases changed.len() - k,
    {
        let f = &changed[k];
        let row = change_row(&hash, copy_opt(&f.path), &f.kind, &f.origins);
        let ghost before = files@;
        files.push(row);
        assert(files@.take(f0.len() as int) =~= before.take(f0.len() as int));
        assert forall|j: int| 0 <= j < k + 1 implies row_of(hash@, changed@[j], #[trigger] files@[f0.len() + j]) by {
            if j < k {
                assert(files@[f0.len() + j] == before[f0.len() + j]);
            }
        }
        k = k + 1;
    }
    let full = record_commit(commits, limit, hash, author, message, secs);
    proof {
        let c1 = commits@;
        let f1 = files@;
        assert(c1.last().hash@ == hash@);
        if rows_belong(c0, f0) {
            assert forall|j: int| 0 <= j < f1.len() implies exists|i: int| 0 <= i < c1.len() && (#[trigger] c1[i]).hash@ == (#[trigger] f1[j]).commit_hash@ by {
                if j < f0.len() {
                    assert(f1[j] == f0[j]) by {
                        assert(f1.take(f0.len() as int)[j] == f1[j]);
                    }
                    let i = choose|i: int| 0 <= i < c0.len() && (#[trigger] c0[i]).hash@ == (#[trigger] f0[j]).commit_hash@;
                    assert(commit_views(c1)[i] == commit_views(c0)[i]) by {
                        assert(commit_views(c1).drop_last()[i] == commit_views(c1)[i]);
                    }
                    assert(c1[i].hash@ == c0[i].hash@);
                } else {
                    let kk = j - f0.len();
                    assert(row_of(hash@, changed@[kk], f1[f0.len() + kk]));
                    assert(c1[c1.len() - 1].hash@ == hash@);
                }
            }
        }
    }
    proof {
        let f1 = files@;
        assert forall|kept: Seq<(Seq<char>, Seq<ChangedFile>)>| #[trigger] rows_follow(kept, f0) implies rows_follow(
            kept.push((hash@, changed@)),
            f1,
        ) by {
            let x = (hash@, changed@);
            let k2 = kept.push(x);
            assert(k2.drop_last() =~= kept);
            let added = changed@.map_values(|f: ChangedFile| (hash@, f));
            assert(walk_rows(k2) == walk_rows(kept) + added);
            assert forall|j: int| 0 <= j < f1.len() implies row_of(walk_rows(k2)[j].0, walk_rows(k2)[j].1, #[trigger] f1[j]) by {
                if j < f0.len() {
                    assert(f1[j] == f0[j]) by {
                        assert(f1.take(f0.len() as int)[j] == f1[j]);
                    }
                    assert(walk_rows(k2)[j] == walk_rows(kept)[j]);
                } else {
                    let kk = j - f0.len();
                    assert(walk_rows(k2)[j] == added[kk]);
                    assert(row_of(hash@, changed@[kk], f1[f0.len() + kk]));
                }
            }
        }
    }
    full
}

proof fn lemma_somes_of_all<A>(xs: Seq<A>)
    ensures
        somes(xs.map_values(|x: A| Some(x))) == xs,
    decreases xs.len(),
{
    if xs.len() > 0 {
        lemma_somes_of_all(xs.drop_last());
        assert(xs.map_values(|x: A| Some(x)).drop_last() =~= xs.drop_last().map_values(|x: A| Some(x)));
        assert(xs.drop_last().push(xs.last()) =~= xs);
    }
}

proof fn lemma_walk_rows_name_kept(kept: Seq<(Seq<char>, Seq<ChangedFile>)>)
    ensures
        forall|j: int| 0 <= j < walk_rows(kept).len() ==> exists|i: int| 0 <= i < kept.len() && (#[trigger] kept[i]).0 == (#[trigger] walk_rows(kept)[j]).0,
    decreases kept.len(),
{
    if kept.len() > 0 {
        let d = kept.drop_last();
        lemma_walk_rows_name_kept(d);
        let added = kept.last().1.map_values(|f: ChangedFile| (kept.last().0, f));
        assert forall|j: int| 0 <= j < walk_rows(kept).len() implies exists|i: int| 0 <= i < kept.len() && (#[trigger] kept[i]).0 == (#[trigger] walk_rows(kept)[j]).0 by {
            if j < walk_rows(d).len() {
                assert(walk_rows(kept)[j] == walk_rows(d)[j]);
                let i = choose|i: int| 0 <= i < d.len() && (#[trigger] d[i]).0 == (#[trigger] walk_rows(d)[j]).0;
                assert(kept[i] == d[i]);
            } else {
                assert(walk_rows(kept)[j] == added[j - walk_rows(d).len()]);
                assert(kept[kept.len() - 1] == kept.last());
            }
        }
    }
}

/// The query tables read commit by commit (`record_query_commit` for each
/// commit of the walk, from empty tables, stopping once it says the list is
/// full) hold exactly the first 200 commits of the walk, in walk order, and
/// their rows follow those commits (`rows_follow`, which
/// `record_query_commit` keeps step by step): each commit's changed files,
/// each row counted from its own file's patch, and every row naming one of
/// those commits.
pub proof fn law_query_tables_hold_the_first_commits(
    walk: Seq<(Seq<char>, Seq<ChangedFile>)>,
    rows: Seq<FileChangeRow>,
)
    ensures
        capped_walk(walk.map_values(|w: (Seq<char>, Seq<ChangedFile>)| Some(w)), 200) == first_n(walk, 200),
        rows_follow(first_n(walk, 200), rows) ==> forall|j: int| 0 <= j < rows.len() ==> exists|i: int|
            0 <= i < first_n(walk, 200).len() && (#[trigger] first_n(walk, 200)[i]).0 == (#[trigger] rows[j]).commit_hash@,
{
    lemma_somes_of_all(walk);
    law_capped_walk_keeps_the_first(walk.map_values(|w: (Seq<char>, Seq<ChangedFile>)| Some(w)), 200);
    let kept = first_n(walk, 200);
    lemma_walk_rows_name_kept(kept);
    if rows_follow(kept, rows) {
        assert forall|j: int| 0 <= j < rows.len() implies exists|i: int|
            0 <= i < kept.len() && (#[trigger] kept[i]).0 == (#[trigger] rows[j]).commit_hash@ by {
            assert(row_of(walk_rows(kept)[j].0, walk_rows(kept)[j].1, rows[j]));
            let i = choose|i: int| 0 <= i < kept.len() && (#[trigger] kept[i]).0 == (#[trigger] walk_rows(kept)[j]).0;
            assert(kept[i].0 == rows[j].commit_hash@);
        }
    }
}

} // verus!
