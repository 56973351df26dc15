//! The file tree of HEAD as the explorer shows it: each directory's
//! entries sorted by name, one node per name.

use vstd::prelude::*;
use crate::history::{text_less, text_less_exec};
use crate::text::chars_of;

verus! {

/// A node of the file tree.
pub struct TreeNode {
    pub name: String,
    pub is_directory: bool,
    pub children: Vec<TreeNode>,
}

/// An entry of a git tree as the explorer reads it: its name when git2 can
/// give it as UTF-8, and, for a subdirectory, the nodes already built for
/// its contents.
pub struct TreeEntry {
    pub name: Option<String>,
    pub subtree: Option<Vec<TreeNode>>,
}

pub open spec fn node_view(t: TreeNode) -> (Seq<char>, bool, Seq<TreeNode>) {
    (t.name@, t.is_directory, t.children@)
}

pub open spec fn node_views(ts: Seq<TreeNode>) -> Seq<(Seq<char>, bool, Seq<TreeNode>)> {
    ts.map_values(|t: TreeNode| node_view(t))
}

pub open spec fn entry_view(e: TreeEntry) -> (Option<Seq<char>>, Option<Seq<TreeNode>>) {
    (
        match e.name {
            Some(n) => Some(n@),
            None => None,
        },
        match e.subtree {
            Some(c) => Some(c@),
            None => None,
        },
    )
}

/// The first index at or after `i` whose name does not sort before `name`.
pub open spec fn insert_pos(nodes: Seq<(Seq<char>, bool, Seq<TreeNode>)>, name: Seq<char>, i: int) -> int
    decreases nodes.len() - i,
{
    if i < 0 || i >= nodes.len() {
        nodes.len() as int
    } else if !text_less(nodes[i].0, name) {
        i
    } else {
        insert_pos(nodes, name, i + 1)
    }
}

/// `node` placed among `nodes` by name: a node of the same name is
/// replaced when `replace` holds and kept otherwise; a new name goes
/// before the first name that does not sort before it.
pub open spec fn place(nodes: Seq<(Seq<char>, bool, Seq<TreeNode>)>, node: (Seq<char>, bool, Seq<TreeNode>), replace: bool) -> Seq<(Seq<char>, bool, Seq<TreeNode>)> {
    let i = insert_pos(nodes, node.0, 0);
    if i < nodes.len() && nodes[i].0 == node.0 {
        if replace {
            nodes.update(i, node)
        } else {
            nodes
        }
    } else {
        nodes.insert(i, node)
    }
}

/// The nodes of one directory from its entries in order: entries without a
/// UTF-8 name are left out; a subdirectory replaces a node of the same
/// name, a file is added only when the name is new.
pub open spec fn tree_level_of(entries: Seq<(Option<Seq<char>>, Option<Seq<TreeNode>>)>) -> Seq<(Seq<char>, bool, Seq<TreeNode>)>
    decreases entries.len(),
{
    if entries.len() == 0 {
        seq![]
    } else {
        let prev = tree_level_of(entries.drop_last());
        let e = entries.last();
        match e.0 {
            None => prev,
            Some(n) => match e.1 {
                Some(c) => place(prev, (n, true, c), true),
                None => place(prev, (n, false, seq![]), false),
            },
        }
    }
}

proof fn lemma_insert_pos_bounds(nodes: Seq<(Seq<char>, bool, Seq<TreeNode>)>, name: Seq<char>, i: int)
    requires
        0 <= i <= nodes.len(),
    ensures
        i <= insert_pos(nodes, name, i) <= nodes.len(),
    decreases nodes.len() - i,
{
    if i < nodes.len() && text_less(nodes[i].0, name) {
        lemma_insert_pos_bounds(nodes, name, i + 1);
    }
}

/// The nodes of one directory of the file tree, built from its entries.
pub fn tree_level(entries: Vec<TreeEntry>) -> (r: Vec<TreeNode>)
    ensures
        node_views(r@) == tree_level_of(entries@.map_values(|e: TreeEntry| entry_view(e))),
{
    let ghost all = entries@.map_values(|e: TreeEntry| entry_view(e));
    let ghost total = entries@.len();
    let mut rest = entries;
    let n: usize = rest.len();
    assert(n == total);
    let mut nodes: Vec<TreeNode> = Vec::new();
    let mut k: usize = 0;
    assert(all.take(0) =~= Seq::<(Option<Seq<char>>, Option<Seq<TreeNode>>)>::empty());
    assert(node_views(nodes@) =~= Seq::<(Seq<char>, bool, Seq<TreeNode>)>::empty());
    assert(rest@.map_values(|e: TreeEntry| entry_view(e)) =~= all.skip(0));
    while rest.len() > 0
        invariant
            k + rest@.len() == total,
            total <= usize::MAX,
            all.len() == total,
            rest@.map_values(|e: TreeEntry| entry_view(e)) == all.skip(k as int),
            node_views(nodes@) == tree_level_of(all.take(k as int)),
        decreases rest@.len(),
    {
        let ghost before = rest@;
        let e = rest.remove(0);
        assert(all[k as int] == entry_view(e)) by {
            assert(all.skip(k as int)[0] == entry_view(before[0]));
        }
        assert(rest@ =~= before.remove(0));
        proof {
            before.remove_ensures(0int);
        }
        assert forall|j: int| 0 <= j < rest@.len() implies entry_view(#[trigger] rest@[j]) == all[k + 1 + j] by {
            assert(rest@[j] == before[j + 1]);
            assert(all.skip(k as int)[j + 1] == entry_view(before[j + 1]));
        }
        assert(rest@.map_values(|e: TreeEntry| entry_view(e)) =~= all.skip(k + 1));
        assert(all.take(k + 1).drop_last() =~= all.take(k as int));
        assert(all.take(k + 1).last() == all[k as int]);
        let ghost nv = node_views(nodes@);
        match e.name {
            None => {},
            Some(name) => {
                let (node, replace) = match e.subtree {
                    Some(children) => (TreeNode { name, is_directory: true, children }, true),
                    None => (TreeNode { name, is_directory: false, children: Vec::new() }, false),
                };
                let key = chars_of(node.name.as_str());
                proof {
                    lemma_insert_pos_bounds(nv, key@, 0);
                }
                let mut i: usize = 0;
                while i < nodes.len() && text_less_exec(&chars_of(nodes[i].name.as_str()), &key)
                    invariant
                        i <= nodes@.len(),
                        nv == node_views(nodes@),
                        insert_pos(nv, key@, 0) == insert_pos(nv, key@, i as int),
                    decreases nodes@.len() - i,
                {
                    i = i + 1;
                }
                let ghost x = node_view(node);
                if i < nodes.len() && nodes[i].name == node.name {
                    if replace {
                        nodes.set(i, node);
                        assert(node_views(nodes@) =~= nv.update(i as int, x));
                    }
                } else {
                    nodes.insert(i, node);
                    assert(node_views(nodes@) =~= nv.insert(i as int, x));
                }
            },
        }
        k = k + 1;
    }
    assert(all.take(total as int) =~= all);
    nodes
}

proof fn lemma_take_index(a: Seq<char>, b: Seq<char>, k: int, j: int)
    requires
        0 <= j < k <= a.len(),
        k <= b.len(),
        a.take(k) == b.take(k),
    ensures
        a[j] == b[j],
{
    assert(a[j] == a.take(k)[j]);
    assert(b[j] == b.take(k)[j]);
}

proof fn lemma_take_shorter(a: Seq<char>, b: Seq<char>, k: int, m: int)
    requires
        0 <= m <= k <= a.len(),
        k <= b.len(),
        a.take(k) == b.take(k),
    ensures
        a.take(m) == b.take(m),
{
    assert forall|j: int| 0 <= j < m implies a.take(m)[j] == b.take(m)[j] by {
        lemma_take_index(a, b, k, j);
    }
    assert(a.take(m) =~= b.take(m));
}

proof fn lemma_text_less_total_from(a: Seq<char>, b: Seq<char>, k: int)
    requires
        a != b,
        0 <= k <= a.len(),
        k <= b.len(),
        a.take(k) == b.take(k),
    ensures
        text_less(a, b) || text_less(b, a),
    decreases a.len() - k,
{
    if k == a.len() && k == b.len() {
        assert(a =~= a.take(k));
        assert(b =~= b.take(k));
    } else if k == a.len() {
        assert(b.take(k) == a.take(k));
    } else if k == b.len() {
        assert(b.take(k) == a.take(k));
    } else if a[k] == b[k] {
        assert(a.take(k + 1) =~= a.take(k).push(a[k]));
        assert(b.take(k + 1) =~= b.take(k).push(b[k]));
        lemma_text_less_total_from(a, b, k + 1);
    } else {
        assert(b.take(k) == a.take(k));
    }
}

/// Of two different texts, one sorts before the other.
pub proof fn lemma_text_less_total(a: Seq<char>, b: Seq<char>)
    requires
        a != b,
    ensures
        text_less(a, b) || text_less(b, a),
{
    assert(a.take(0) =~= b.take(0));
    lemma_text_less_total_from(a, b, 0);
}

/// The text order is transitive.
pub proof fn lemma_text_less_transitive(a: Seq<char>, b: Seq<char>, c: Seq<char>)
    requires
        text_less(a, b),
        text_less(b, c),
    ensures
        text_less(a, c),
{
    let k1 = choose|k: int|
        0 <= k <= a.len() && k <= b.len() && #[trigger] a.take(k) == b.take(k) && ((k == a.len()
            && k < b.len()) || (k < a.len() && k < b.len() && a[k] < b[k]));
    let k2 = choose|k: int|
        0 <= k <= b.len() && k <= c.len() && #[trigger] b.take(k) == c.take(k) && ((k == b.len()
            && k < c.len()) || (k < b.len() && k < c.len() && b[k] < c[k]));
    if k1 < k2 {
        lemma_take_shorter(b, c, k2, k1);
        assert(a.take(k1) == c.take(k1));
        if k1 < a.len() {
            lemma_take_index(b, c, k2, k1);
        }
    } else if k2 < k1 {
        lemma_take_shorter(a, b, k1, k2);
        assert(a.take(k2) == c.take(k2));
        lemma_take_index(a, b, k1, k2);
    } else {
        assert(a.take(k1) == c.take(k1));
    }
}

/// Whether the names of `nodes` strictly increase.
pub open spec fn names_increasing(nodes: Seq<(Seq<char>, bool, Seq<TreeNode>)>) -> bool {
    forall|i: int, j: int| 0 <= i < j < nodes.len() ==> text_less(#[trigger] nodes[i].0, #[trigger] nodes[j].0)
}

proof fn lemma_insert_pos_facts(nodes: Seq<(Seq<char>, bool, Seq<TreeNode>)>, name: Seq<char>, i: int)
    requires
        0 <= i <= nodes.len(),
    ensures
        forall|j: int| i <= j < insert_pos(nodes, name, i) ==> text_less(#[trigger] nodes[j].0, name),
        insert_pos(nodes, name, i) < nodes.len() ==> !text_less(nodes[insert_pos(nodes, name, i)].0, name),
    decreases nodes.len() - i,
{
    if i < nodes.len() && text_less(nodes[i].0, name) {
        lemma_insert_pos_facts(nodes, name, i + 1);
    }
}

proof fn lemma_place_increasing(nodes: Seq<(Seq<char>, bool, Seq<TreeNode>)>, node: (Seq<char>, bool, Seq<TreeNode>), replace: bool)
    requires
        names_increasing(nodes),
    ensures
        names_increasing(place(nodes, node, replace)),
{
    let p = insert_pos(nodes, node.0, 0);
    lemma_insert_pos_bounds(nodes, node.0, 0);
    lemma_insert_pos_facts(nodes, node.0, 0);
    let r = place(nodes, node, replace);
    if p < nodes.len() && nodes[p].0 == node.0 {
        assert forall|i: int, j: int| 0 <= i < j < r.len() implies text_less(#[trigger] r[i].0, #[trigger] r[j].0) by {
            assert(text_less(nodes[i].0, nodes[j].0));
        }
    } else {
        nodes.insert_ensures(p, node);
        if p < nodes.len() {
            lemma_text_less_total(nodes[p].0, node.0);
        }
        assert forall|i: int, j: int| 0 <= i < j < r.len() implies text_less(#[trigger] r[i].0, #[trigger] r[j].0) by {
            if j < p {
                assert(text_less(nodes[i].0, nodes[j].0));
            } else if j == p {
                assert(r[i] == nodes[i]);
            } else if i < p {
                assert(r[j] == nodes[j - 1]);
                assert(r[i] == nodes[i]);
                if j - 1 == p {
                    lemma_text_less_transitive(nodes[i].0, node.0, nodes[p].0);
                } else {
                    assert(text_less(nodes[i].0, nodes[j - 1].0));
                }
            } else if i == p {
                assert(r[j] == nodes[j - 1]);
                if j - 1 > p {
                    assert(text_less(nodes[p].0, nodes[j - 1].0));
                    lemma_text_less_transitive(node.0, nodes[p].0, nodes[j - 1].0);
                }
            } else {
                assert(r[i] == nodes[i - 1] && r[j] == nodes[j - 1]);
                assert(text_less(nodes[i - 1].0, nodes[j - 1].0));
            }
        }
    }
}

/// Each directory of the file tree lists its entries sorted by name, each
/// name once.
pub proof fn law_tree_level_sorted_unique(entries: Seq<(Option<Seq<char>>, Option<Seq<TreeNode>>)>)
    ensures
        names_increasing(tree_level_of(entries)),
    decreases entries.len(),
{
    if entries.len() > 0 {
        law_tree_level_sorted_unique(entries.drop_last());
        let prev = tree_level_of(entries.drop_last());
        let e = entries.last();
        match e.0 {
            None => {},
            Some(n) => match e.1 {
                Some(c) => lemma_place_increasing(prev, (n, true, c), true),
                None => lemma_place_increasing(prev, (n, false, seq![]), false),
            },
        }
    }
}

} // verus!
