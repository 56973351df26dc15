//! Paths that arrive from the front end: which relative paths are safe to
//! join under a trusted directory, and whether a resolved path stays under
//! its base.  Paths are read as Unix paths, component by component, the way
//! `std::path::Path::components` reads them.

use vstd::prelude::*;
use crate::text::{
    append_chars, chars_of, join_with, join_with_exec, lemma_split_on_nonempty, split_on, split_on_exec,
    string_of,
};

verus! {

/// Whether `s` starts at the root directory.
pub open spec fn has_root(s: Seq<char>) -> bool {
    s.len() > 0 && s[0] == '/'
}

/// Whether `s` starts with a `.` component (kept only at the start).
pub open spec fn starts_with_cur_dir(s: Seq<char>) -> bool {
    !has_root(s) && s.len() >= 1 && s[0] == '.' && (s.len() == 1 || s[1] == '/')
}

/// The components after the leading root or `.`: empty pieces (repeated or
/// trailing separators) and `.` pieces are dropped; `..` and names stay.
pub open spec fn body_components(pieces: Seq<Seq<char>>) -> Seq<Seq<char>>
    decreases pieces.len(),
{
    if pieces.len() == 0 {
        seq![]
    } else {
        let r = body_components(pieces.drop_last());
        let g = pieces.last();
        if g.len() == 0 || g == seq!['.'] {
            r
        } else {
            r.push(g)
        }
    }
}

/// The components of `s`, each as its text: `/` for the root, `.` for a
/// leading current directory, `..` for a parent, or a name.
pub open spec fn path_components(s: Seq<char>) -> Seq<Seq<char>> {
    let lead: Seq<Seq<char>> = if has_root(s) {
        seq![seq!['/']]
    } else if starts_with_cur_dir(s) {
        seq![seq!['.']]
    } else {
        seq![]
    };
    lead + body_components(split_on(s, '/'))
}

/// The outcome `safe_relative_path` owes for `s`.
pub open spec fn safe_relative_outcome(s: Seq<char>) -> Result<Seq<char>, Seq<char>> {
    let body = body_components(split_on(s, '/'));
    if has_root(s) {
        Err("拒绝绝对路径: "@ + s)
    } else if starts_with_cur_dir(s) || body.contains(seq!['.', '.']) {
        Err("路径包含非法组件: "@ + s)
    } else if body.len() == 0 {
        Err("路径不能为空"@)
    } else {
        Ok(join_with(body, '/'))
    }
}

/// Whether the component list of `s` begins with that of `base`
/// (`Path::starts_with`: whole components only).
pub open spec fn path_starts_with(s: Seq<char>, base: Seq<char>) -> bool {
    let c = path_components(s);
    let b = path_components(base);
    b.len() <= c.len() && c.take(b.len() as int) == b
}

/// The components after the leading one, for a list of pieces.
fn body_components_exec(pieces: &Vec<Vec<char>>) -> (r: Vec<Vec<char>>)
    ensures
        r.deep_view() == body_components(pieces.deep_view()),
{
    let mut r: Vec<Vec<char>> = Vec::new();
    let mut i: usize = 0;
    while i < pieces.len()
        invariant
            i <= pieces@.len(),
            r.deep_view() == body_components(pieces.deep_view().take(i as int)),
        decreases pieces@.len() - i,
    {
        let ghost dv = pieces.deep_view();
        assert(dv.take(i + 1).drop_last() == dv.take(i as int));
        let g = &pieces[i];
        assert(g.deep_view() =~= g@);
        assert(dv[i as int] == g@);
        let dot = g.len() == 1 && g[0] == '.';
        assert(dot == (g@ == seq!['.'])) by {
            if g@ == seq!['.'] {
                assert(g@[0] == '.');
            }
            if dot {
                assert(g@ =~= seq!['.']);
            }
        }
        if g.len() != 0 && !dot {
            let ghost before = r.deep_view();
            let mut copy: Vec<char> = Vec::new();
            append_chars(&mut copy, g);
            assert(copy.deep_view() =~= copy@);
            r.push(copy);
            assert(r.deep_view() =~= before.push(g@));
        }
        i = i + 1;
    }
    assert(pieces.deep_view().take(pieces@.len() as int) == pieces.deep_view());
    r
}

/// Whether one of the components is `..`.
fn has_parent_component(comps: &Vec<Vec<char>>) -> (r: bool)
    ensures
        r == comps.deep_view().contains(seq!['.', '.']),
{
    let ghost dv = comps.deep_view();
    let mut i: usize = 0;
    while i < comps.len()
        invariant
            i <= comps@.len(),
            dv == comps.deep_view(),
            forall|j: int| 0 <= j < i ==> dv[j] != seq!['.', '.'],
        decreases comps@.len() - i,
    {
        let g = &comps[i];
        assert(g.deep_view() =~= g@);
        if g.len() == 2 && g[0] == '.' && g[1] == '.' {
            assert(g@ =~= seq!['.', '.']);
            assert(dv[i as int] == seq!['.', '.']);
            return true;
        }
        assert(g@ != seq!['.', '.']) by {
            if g@ == seq!['.', '.'] {
                assert(g@.len() == 2 && g@[0] == '.' && g@[1] == '.');
            }
        }
        i = i + 1;
    }
    false
}

/// The components of `s` (see `path_components`).
fn components_exec(s: &Vec<char>) -> (r: Vec<Vec<char>>)
    ensures
        r.deep_view() == path_components(s@),
{
    let pieces = split_on_exec(s, '/');
    let body = body_components_exec(&pieces);
    let mut r: Vec<Vec<char>> = Vec::new();
    if s.len() > 0 && s[0] == '/' {
        let root = vec!['/'];
        assert(root.deep_view() =~= seq!['/']);
        r.push(root);
        assert(r.deep_view() =~= seq![seq!['/']]);
    } else if s.len() >= 1 && s[0] == '.' && (s.len() == 1 || s[1] == '/') {
        let cur = vec!['.'];
        assert(cur.deep_view() =~= seq!['.']);
        r.push(cur);
        assert(r.deep_view() =~= seq![seq!['.']]);
    } else {
        assert(r.deep_view() =~= Seq::<Seq<char>>::empty());
    }
    let ghost lead = r.deep_view();
    assert(lead =~= (if has_root(s@) {
        seq![seq!['/']]
    } else if starts_with_cur_dir(s@) {
        seq![seq!['.']]
    } else {
        seq![]
    }));
    let mut i: usize = 0;
    while i < body.len()
        invariant
            i <= body@.len(),
            r.deep_view() == lead + body.deep_view().take(i as int),
        decreases body@.len() - i,
    {
        let ghost before = r.deep_view();
        let mut copy: Vec<char> = Vec::new();
        append_chars(&mut copy, &body[i]);
        assert(copy.deep_view() =~= copy@);
        assert(body[i as int].deep_view() =~= body[i as int]@);
        r.push(copy);
        assert(r.deep_view() =~= before.push(body.deep_view()[i as int]));
        assert(body.deep_view().take(i + 1) =~= body.deep_view().take(i as int).push(
            body.deep_view()[i as int],
        ));
        assert(r.deep_view() =~= lead + body.deep_view().take(i + 1));
        i = i + 1;
    }
    assert(body.deep_view().take(body@.len() as int) == body.deep_view());
    r
}

/// Checks a relative path sent by the front end: absolute paths and paths
/// with any `.` or `..` component are refused, as is a path with no
/// component.  On success the path is returned as its components joined by
/// `/`, safe to join under a trusted directory.
pub fn safe_relative_path(untrusted: &str) -> (r: Result<String, String>)
    ensures
        match r {
            Ok(p) => safe_relative_outcome(untrusted@) == Ok::<Seq<char>, Seq<char>>(p@),
            Err(e) => safe_relative_outcome(untrusted@) == Err::<Seq<char>, Seq<char>>(e@),
        },
{
    let s = chars_of(untrusted);
    if s.len() > 0 && s[0] == '/' {
        let mut msg = chars_of("拒绝绝对路径: ");
        append_chars(&mut msg, &s);
        return Err(string_of(&msg));
    }
    let pieces = split_on_exec(&s, '/');
    let body = body_components_exec(&pieces);
    let cur = s.len() >= 1 && s[0] == '.' && (s.len() == 1 || s[1] == '/');
    if cur || has_parent_component(&body) {
        let mut msg = chars_of("路径包含非法组件: ");
        append_chars(&mut msg, &s);
        return Err(string_of(&msg));
    }
    if body.len() == 0 {
        return Err(string_of(&chars_of("路径不能为空")));
    }
    Ok(string_of(&join_with_exec(&body, '/')))
}

/// Whether the components of `s` begin with those of `base`.
#[verifier::loop_isolation(false)]
pub fn path_starts_with_exec(s: &str, base: &str) -> (r: bool)
    ensures
        r == path_starts_with(s@, base@),
{
    let c = components_exec(&chars_of(s));
    let b = components_exec(&chars_of(base));
    let ghost cv = c.deep_view();
    let ghost bv = b.deep_view();
    if b.len() > c.len() {
        return false;
    }
    let mut i: usize = 0;
    while i < b.len()
        invariant
            i <= b@.len(),
            b@.len() <= c@.len(),
            cv == c.deep_view(),
            bv == b.deep_view(),
            cv.take(i as int) == bv.take(i as int),
        decreases b@.len() - i,
    {
        let x = &c[i];
        let y = &b[i];
        assert(x.deep_view() =~= x@);
        assert(y.deep_view() =~= y@);
        if x.len() != y.len() {
            assert(cv.take(bv.len() as int)[i as int] != bv[i as int]);
            return false;
        }
        let mut k: usize = 0;
        while k < x.len()
            invariant
                k <= x@.len(),
                x@.len() == y@.len(),
                forall|j: int| 0 <= j < k ==> x@[j] == y@[j],
            decreases x@.len() - k,
        {
            if x[k] != y[k] {
                assert(x@[k as int] != y@[k as int]);
                assert(cv.take(bv.len() as int)[i as int] != bv[i as int]);
                return false;
            }
            k = k + 1;
        }
        assert(x@ =~= y@);
        assert(cv.take(i + 1) =~= cv.take(i as int).push(cv[i as int]));
        assert(bv.take(i + 1) =~= bv.take(i as int).push(bv[i as int]));
        i = i + 1;
    }
    assert(bv.take(bv.len() as int) == bv);
    true
}

/// Checks that a path, already resolved to its canonical form by the file
/// system (`target_canonical`), lies under the canonical form of its base
/// directory.  The resolved path is returned when it does.
pub fn resolve_existing_under(base_canonical: &str, target_canonical: &str) -> (r: Result<
    String,
    String,
>)
    ensures
        path_starts_with(target_canonical@, base_canonical@) ==> (r matches Ok(p) && p@
            == target_canonical@),
        !path_starts_with(target_canonical@, base_canonical@) ==> (r matches Err(e) && e@
            == "拒绝访问目标目录之外的文件"@),
{
    if !path_starts_with_exec(target_canonical, base_canonical) {
        return Err(string_of(&chars_of("拒绝访问目标目录之外的文件")));
    }
    Ok(string_of(&chars_of(target_canonical)))
}

/// Whether no piece of `ls` holds `sep`.
pub open spec fn free_of(ls: Seq<Seq<char>>, sep: char) -> bool {
    forall|i: int, j: int| 0 <= i < ls.len() && 0 <= j < ls[i].len() ==> #[trigger] ls[i][j] != sep
}

proof fn lemma_split_append_plain(s: Seq<char>, t: Seq<char>, sep: char)
    requires
        forall|j: int| 0 <= j < t.len() ==> t[j] != sep,
    ensures
        split_on(s + t, sep) == split_on(s, sep).update(
            split_on(s, sep).len() - 1,
            split_on(s, sep).last() + t,
        ),
    decreases t.len(),
{
    lemma_split_on_nonempty(s, sep);
    if t.len() == 0 {
        assert(s + t =~= s);
        assert(split_on(s, sep).last() + t =~= split_on(s, sep).last());
        assert(split_on(s, sep).update(split_on(s, sep).len() - 1, split_on(s, sep).last())
            =~= split_on(s, sep));
    } else {
        let t0 = t.drop_last();
        lemma_split_append_plain(s, t0, sep);
        assert((s + t).drop_last() =~= s + t0);
        assert((s + t).last() == t.last());
        let r = split_on(s, sep);
        assert(r.update(r.len() - 1, r.last() + t0).last().push(t.last()) =~= r.last() + t);
        assert(r.update(r.len() - 1, r.last() + t0).update(r.len() - 1, r.last() + t)
            =~= r.update(r.len() - 1, r.last() + t));
    }
}

/// Splitting joined pieces that hold no separator gives the pieces back.
pub proof fn lemma_split_join(ls: Seq<Seq<char>>, sep: char)
    requires
        ls.len() >= 1,
        free_of(ls, sep),
    ensures
        split_on(join_with(ls, sep), sep) == ls,
    decreases ls.len(),
{
    if ls.len() == 1 {
        assert(forall|j: int| 0 <= j < ls[0].len() ==> ls[0][j] != sep) by {
            assert forall|j: int| 0 <= j < ls[0].len() implies ls[0][j] != sep by {
                assert(ls[0][j] != sep);
            }
        }
        lemma_split_append_plain(Seq::<char>::empty(), ls[0], sep);
        assert(Seq::<char>::empty() + ls[0] =~= ls[0]);
        assert(seq![Seq::<char>::empty()].update(0, Seq::<char>::empty() + ls[0]) =~= ls);
    } else {
        let d = ls.drop_last();
        assert(free_of(d, sep)) by {
            assert forall|i: int, j: int| 0 <= i < d.len() && 0 <= j < d[i].len() implies #[trigger] d[i][j]
                != sep by {
                assert(d[i] == ls[i]);
                assert(ls[i][j] != sep);
            }
        }
        lemma_split_join(d, sep);
        let head = join_with(d, sep) + seq![sep];
        assert(head.drop_last() =~= join_with(d, sep));
        assert(split_on(head, sep) == d.push(seq![]));
        assert forall|j: int| 0 <= j < ls.last().len() implies ls.last()[j] != sep by {
            assert(ls[ls.len() - 1][j] != sep);
        }
        lemma_split_append_plain(head, ls.last(), sep);
        assert(Seq::<char>::empty() + ls.last() =~= ls.last());
        assert(d.push(seq![]).update(d.len() as int, Seq::<char>::empty() + ls.last()) =~= ls);
    }
}

/// No piece of a split holds the separator.
proof fn lemma_split_free(s: Seq<char>, sep: char)
    ensures
        free_of(split_on(s, sep), sep),
    decreases s.len(),
{
    if s.len() > 0 {
        lemma_split_free(s.drop_last(), sep);
        lemma_split_on_nonempty(s.drop_last(), sep);
        let r = split_on(s.drop_last(), sep);
        let out = split_on(s, sep);
        assert forall|i: int, j: int| 0 <= i < out.len() && 0 <= j < out[i].len() implies #[trigger] out[i][j]
            != sep by {
            if s.last() == sep {
                if i < r.len() {
                    assert(out[i] == r[i]);
                    assert(r[i][j] != sep);
                }
            } else if i < r.len() - 1 {
                assert(out[i] == r[i]);
                assert(r[i][j] != sep);
            } else {
                assert(out[i] == r.last().push(s.last()));
                if j < r.last().len() {
                    assert(r[r.len() - 1][j] != sep);
                }
            }
        }
    }
}

/// Every component kept is a nonempty piece other than `.`, and free of
/// `sep` when the pieces are.
proof fn lemma_body_pieces(pieces: Seq<Seq<char>>, sep: char)
    ensures
        forall|i: int| 0 <= i < body_components(pieces).len() ==> (#[trigger] body_components(pieces)[i]).len() > 0
            && body_components(pieces)[i] != seq!['.'],
        free_of(pieces, sep) ==> free_of(body_components(pieces), sep),
    decreases pieces.len(),
{
    if pieces.len() > 0 {
        let d = pieces.drop_last();
        lemma_body_pieces(d, sep);
        if free_of(pieces, sep) {
            assert(free_of(d, sep)) by {
                assert forall|i: int, j: int| 0 <= i < d.len() && 0 <= j < d[i].len() implies #[trigger] d[i][j]
                    != sep by {
                    assert(d[i] == pieces[i]);
                    assert(pieces[i][j] != sep);
                }
            }
            let b = body_components(pieces);
            let bd = body_components(d);
            assert forall|i: int, j: int| 0 <= i < b.len() && 0 <= j < b[i].len() implies #[trigger] b[i][j]
                != sep by {
                if i < bd.len() {
                    assert(b[i] == bd[i]);
                    assert(bd[i][j] != sep);
                } else {
                    assert(b[i] == pieces.last());
                    assert(pieces[pieces.len() - 1][j] != sep);
                }
            }
        }
    }
}

/// Components that are all nonempty and not `.` are kept as they are.
proof fn lemma_body_identity(ls: Seq<Seq<char>>)
    requires
        forall|i: int| 0 <= i < ls.len() ==> (#[trigger] ls[i]).len() > 0 && ls[i] != seq!['.'],
    ensures
        body_components(ls) == ls,
    decreases ls.len(),
{
    if ls.len() > 0 {
        lemma_body_identity(ls.drop_last());
        assert(ls[ls.len() - 1] == ls.last());
        assert(ls.drop_last().push(ls.last()) =~= ls);
    }
}

/// The first character of joined pieces is that of the first piece, and
/// when the first piece has one character, the separator (or nothing)
/// follows it.
proof fn lemma_join_start(ls: Seq<Seq<char>>, sep: char)
    requires
        ls.len() >= 1,
        ls[0].len() > 0,
    ensures
        join_with(ls, sep).len() >= ls[0].len(),
        join_with(ls, sep).take(ls[0].len() as int) == ls[0],
        join_with(ls, sep).len() > ls[0].len() ==> join_with(ls, sep)[ls[0].len() as int] == sep,
    decreases ls.len(),
{
    if ls.len() > 1 {
        let d = ls.drop_last();
        lemma_join_start(d, sep);
        let j = join_with(d, sep);
        let full = j + seq![sep] + ls.last();
        assert(full.take(ls[0].len() as int) =~= j.take(ls[0].len() as int));
        if j.len() == ls[0].len() {
            assert(full[ls[0].len() as int] == sep);
        } else {
            assert(full[ls[0].len() as int] == j[ls[0].len() as int]);
        }
    } else {
        assert(ls[0].take(ls[0].len() as int) =~= ls[0]);
    }
}

/// A path that `safe_relative_path` accepts is made of plain names only
/// (it is not absolute and has no `.` or `..` component), has the same
/// components as the text it was accepted from, and accepting it again
/// gives it back unchanged.
pub proof fn law_safe_path_is_normal(s: Seq<char>)
    requires
        safe_relative_outcome(s) is Ok,
    ensures
        !has_root(safe_relative_outcome(s)->Ok_0),
        !path_components(safe_relative_outcome(s)->Ok_0).contains(seq!['.', '.']),
        !path_components(safe_relative_outcome(s)->Ok_0).contains(seq!['.']),
        safe_relative_outcome(safe_relative_outcome(s)->Ok_0) == safe_relative_outcome(s),
        path_components(safe_relative_outcome(s)->Ok_0) == path_components(s),
{
    let body = body_components(split_on(s, '/'));
    let p = join_with(body, '/');
    lemma_split_free(s, '/');
    lemma_body_pieces(split_on(s, '/'), '/');
    lemma_split_join(body, '/');
    lemma_body_identity(body);
    lemma_join_start(body, '/');
    assert(p[0] == body[0][0]) by {
        assert(p.take(body[0].len() as int)[0] == p[0]);
    }
    assert(body[0][0] != '/');
    assert(!has_root(p));
    assert(!starts_with_cur_dir(p)) by {
        if starts_with_cur_dir(p) {
            if body[0].len() == 1 {
                assert(body[0] =~= seq!['.']);
            } else {
                assert(p[1] == body[0][1]) by {
                    assert(p.take(body[0].len() as int)[1] == p[1]);
                }
                assert(body[0][1] != '/');
            }
        }
    }
    assert(body_components(split_on(p, '/')) == body);
    assert(path_components(p) == body) by {
        assert(Seq::<Seq<char>>::empty() + body =~= body);
    }
    assert(path_components(s) == body) by {
        assert(Seq::<Seq<char>>::empty() + body =~= body);
    }
}

} // verus!
